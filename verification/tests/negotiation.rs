use propsim::backend::validate_properties;
use propsim::{validate, BackendError, Needs, Produces};

fn oracles(list: &[(&str, Needs)]) -> Vec<(String, Needs)> {
    list.iter().map(|(n, k)| (n.to_string(), *k)).collect()
}

#[test]
fn white_box_oracle_rejected_on_black_box_executor() {
    let os = oracles(&[("at most one leader per term", Needs::World), ("strict-serializable", Needs::History)]);
    let err = validate(Produces::real_cluster(), &os).unwrap_err();
    let msg = err.to_string();
    // Names the offending white-box oracle...
    assert!(msg.contains("at most one leader per term"), "msg was: {msg}");
    // ...but not the history-based one, which is fine on a black-box executor.
    assert!(!msg.contains("strict-serializable"), "msg was: {msg}");
}

#[test]
fn history_oracle_passes_on_black_box_executor() {
    let os = oracles(&[("strict-serializable", Needs::History)]);
    assert!(validate(Produces::real_cluster(), &os).is_ok());
}

#[test]
fn white_box_oracle_passes_on_white_box_executor() {
    let os = oracles(&[("at most one leader per term", Needs::World), ("strict-serializable", Needs::History)]);
    assert!(validate(Produces::deterministic(), &os).is_ok());
}

#[test]
fn every_offender_is_named_in_order() {
    let os = oracles(&[("a", Needs::World), ("h", Needs::History), ("b", Needs::World)]);
    let err = validate(Produces::real_cluster(), &os).unwrap_err();
    assert_eq!(err, BackendError::WhiteBoxOraclesOnBlackBoxExecutor(vec!["a".to_string(), "b".to_string()]));
    assert_eq!(
        err.to_string(),
        "the following oracle(s) read internal node state, but the chosen executor is black-box \
         (produces no world snapshots): a, b. Use the deterministic executor, or target a \
         history-based oracle."
    );
}

#[test]
fn capability_presets() {
    let d = Produces::deterministic();
    assert!(d.world_snapshots && d.history && d.virtual_time && d.seed_replayable);
    let r = Produces::real_cluster();
    assert!(!r.world_snapshots && r.history && !r.virtual_time && !r.seed_replayable);
    assert!(validate(r, &Vec::new()).is_ok());
}

#[test]
fn properties_are_refused_by_name_on_a_black_box_executor() {
    let names = vec!["ids only".to_string(), "converges".to_string()];
    assert_eq!(validate_properties(Produces::deterministic(), names.clone()), Ok(()));
    assert_eq!(validate_properties(Produces::real_cluster(), Vec::new()), Ok(()));
    assert_eq!(
        validate_properties(Produces::real_cluster(), names.clone()),
        Err(BackendError::WhiteBoxOraclesOnBlackBoxExecutor(names))
    );
}
