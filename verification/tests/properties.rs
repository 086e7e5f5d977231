use propsim::sim::properties::{anchor_time, checked_evaluate_properties, evaluate_one, evaluate_properties, PropertyOutcome};
use propsim::{Event, NodeId, PropertyKind, RunEvent, Witness};
use std::time::Duration;

fn ms(n: u64) -> Duration {
    Duration::from_millis(n)
}

fn outcome(kind: PropertyKind, after: Option<Event>, frames: &[(u64, bool)]) -> PropertyOutcome {
    PropertyOutcome {
        name: "p".to_string(),
        kind,
        after,
        frames: frames.iter().map(|(t, b)| (ms(*t), *b)).collect(),
    }
}

#[test]
fn always_fails_at_the_first_false_frame() {
    let v = evaluate_one(&outcome(PropertyKind::Always, None, &[(0, true), (5, false), (9, false)]), &vec![]);
    assert!(!v.valid);
    assert_eq!(v.anomalies.len(), 1);
    assert_eq!(v.anomalies[0].kind, "invariant-violated");
    assert_eq!(v.anomalies[0].detail.as_deref(), Some("`p` false at t=5ms"));
    assert_eq!(v.witness, Some(Witness::Text("property `p` (always) violated at virtual t=5ms".to_string())));
    let ok = evaluate_one(&outcome(PropertyKind::Always, None, &[(0, true)]), &vec![]);
    assert!(ok.valid && ok.anomalies.is_empty() && ok.witness.is_none());
}

#[test]
fn sometimes_needs_one_frame() {
    assert!(evaluate_one(&outcome(PropertyKind::Sometimes, None, &[(0, false), (1, true)]), &vec![]).valid);
    let v = evaluate_one(&outcome(PropertyKind::Sometimes, None, &[(0, false)]), &vec![]);
    assert!(!v.valid);
    assert_eq!(v.anomalies[0].kind, "reachability-unmet");
    assert_eq!(v.anomalies[0].detail.as_deref(), Some("`p` never held in any state"));
    assert!(!evaluate_one(&outcome(PropertyKind::Sometimes, None, &[]), &vec![]).valid);
}

#[test]
fn deadlines_are_anchored_to_run_events() {
    let events = vec![
        RunEvent::NodeRejoined(ms(50), NodeId(1)),
        RunEvent::NetworkHealed(ms(100)),
        RunEvent::NetworkHealed(ms(900)),
    ];
    assert_eq!(anchor_time(Some(&Event::NetworkHealed), &events), ms(100));
    assert_eq!(anchor_time(Some(&Event::NodeRejoined), &events), ms(50));
    assert_eq!(anchor_time(None, &events), Duration::ZERO);
    assert_eq!(anchor_time(Some(&Event::Custom("x".into())), &events), Duration::ZERO);
    let within = PropertyKind::EventuallyWithin { deadline: ms(20) };
    let met = evaluate_one(&outcome(within.clone(), Some(Event::NetworkHealed), &[(90, true), (110, true)]), &events);
    assert!(met.valid);
    assert_eq!(met.witness, Some(Witness::Text("deadline evaluated against virtual time".to_string())));
    let missed = evaluate_one(&outcome(within, Some(Event::NetworkHealed), &[(90, true), (121, true)]), &events);
    assert!(!missed.valid);
    assert_eq!(missed.anomalies[0].kind, "deadline-exceeded");
    assert_eq!(
        missed.anomalies[0].detail.as_deref(),
        Some("`p` not satisfied within 20ms of Some(NetworkHealed) (virtual time)")
    );
    let custom = evaluate_one(
        &outcome(PropertyKind::EventuallyWithin { deadline: ms(1) }, Some(Event::Custom("a\"b".into())), &[]),
        &events,
    );
    assert_eq!(
        custom.anomalies[0].detail.as_deref(),
        Some("`p` not satisfied within 1ms of Some(Custom(\"a\\\"b\")) (virtual time)")
    );
}

#[test]
fn every_property_gets_a_named_verdict() {
    let props = vec![
        outcome(PropertyKind::Always, None, &[(0, true)]),
        PropertyOutcome { name: "q".into(), ..outcome(PropertyKind::Sometimes, None, &[]) },
    ];
    let vs = evaluate_properties(&props, &vec![]);
    assert_eq!(vs.len(), 2);
    assert_eq!(vs[0].name, "p");
    assert!(vs[0].verdict.valid);
    assert_eq!(vs[1].name, "q");
    assert!(!vs[1].verdict.valid);
}

#[test]
fn deadlines_that_overflow_are_refused_before_evaluation() {
    let ok = vec![outcome(PropertyKind::EventuallyWithin { deadline: ms(5) }, None, &[(1, true)])];
    let vs = checked_evaluate_properties(&ok, &vec![]).unwrap();
    assert!(vs[0].verdict.valid);
    let huge = vec![outcome(PropertyKind::EventuallyWithin { deadline: Duration::MAX }, Some(Event::NetworkHealed), &[])];
    let events = vec![RunEvent::NetworkHealed(ms(1))];
    assert!(checked_evaluate_properties(&huge, &events).is_none());
}
