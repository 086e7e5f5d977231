use propsim::plan::data_with_ops;
use propsim::oracle::{fails_named, first_failure};
use propsim::sim::{
    checked_run_horizon, client_op_target, collect_ops, group_by_process, index_seed, op_function, pump_client_ops,
    run_horizon, shrink_prefix,
};
use propsim::{
    Anomaly, DeterministicExecutor, Faults, FrozenOp, Function, History, InMemory, NamedVerdict, NodeId,
    OpEntry, OpKind, PlanData, ProcessId, RunFailure, Scenario, SchedCore, NetworkModel, Seed, Time, Value,
    Verdict, Witness, BackendError,
};
use std::time::Duration;

#[test]
fn op_function_reads_the_leading_keyword() {
    let list = FrozenOp::new(NodeId(0), Value::List(vec![Value::keyword("write"), Value::Int(1)]));
    assert_eq!(op_function(&list), Function::new("write"));
    assert_eq!(op_function(&FrozenOp::new(NodeId(0), Value::keyword("read"))), Function::new("read"));
    assert_eq!(op_function(&FrozenOp::new(NodeId(0), Value::Int(3))), Function::new("op"));
    assert_eq!(op_function(&FrozenOp::new(NodeId(0), Value::List(vec![]))), Function::new("op"));
}

#[test]
fn targets_wrap_around_the_cluster() {
    let op = FrozenOp::new(NodeId(7), Value::Nil);
    assert_eq!(client_op_target(&op, NodeId(7), 3), 1);
    let routed = FrozenOp::new(NodeId(7), Value::Nil).routed_to(NodeId(5));
    assert_eq!(routed.route, Some(NodeId(5)));
    assert_eq!(client_op_target(&routed, NodeId(7), 3), 2);
}

#[test]
fn index_seeds_are_fixed() {
    assert_eq!(index_seed(0), Seed(0x1cc152e47d174d3c));
    assert_eq!(index_seed(1), Seed(0x03317bb4875fb038));
}

#[test]
fn horizon_covers_the_last_scripted_fault() {
    let mut data = PlanData::default();
    assert_eq!(run_horizon(&data), 15_000_000_000);
    data.faults = Some(Faults::scripted().at(Duration::from_secs(7)).heal_all());
    assert_eq!(run_horizon(&data), 17_000_000_000);
    data.faults = None;
    data.replay = Some(Scenario::new(vec![], Faults::scripted().at(Duration::from_secs(20)).crash(0)));
    assert_eq!(run_horizon(&data), 30_000_000_000);
}

#[test]
fn invokes_become_frozen_ops() {
    let mk = |i: u64, k: OpKind, p: u64, v: i64| OpEntry {
        index: i,
        time: Time::virtual_nanos(0),
        kind: k,
        process: ProcessId(p),
        f: Function::new("w"),
        value: Value::Int(v),
    };
    let h = History::new(vec![mk(0, OpKind::Invoke, 2, 10), mk(1, OpKind::Success, 2, 11), mk(2, OpKind::Invoke, 0, 12)]);
    let ops = collect_ops(&h);
    assert_eq!(ops, vec![FrozenOp::new(NodeId(2), Value::Int(10)), FrozenOp::new(NodeId(0), Value::Int(12))]);
}

#[test]
fn pumping_issues_one_op_per_idle_process() {
    let mut sched: SchedCore<u8, u8> = SchedCore::new(0, NetworkModel::ordered_reliable(), 2);
    let queues = vec![vec![4, 5], vec![]];
    let mut cursor = vec![0, 0];
    let mut scheduled = vec![0, 0];
    pump_client_ops(&mut sched, &queues, &mut cursor, &mut scheduled, 2);
    assert_eq!(cursor, vec![1, 0]);
    assert_eq!(scheduled, vec![1, 0]);
    // process 0 is busy until its op closes
    pump_client_ops(&mut sched, &queues, &mut cursor, &mut scheduled, 2);
    assert_eq!(cursor, vec![1, 0]);
    assert_eq!(sched.queue.len(), 1);
    assert_eq!(sched.queue[0].at, 1_000_000);
}

#[test]
fn verdict_builders() {
    let v = Verdict::invalid(vec![Anomaly::new("G0".to_string())]).with_witness(Witness::Text("w".into()));
    assert!(!v.valid);
    assert_eq!(v.anomalies[0].detail, None);
    let nv = NamedVerdict::new("lin".to_string(), Verdict::valid());
    assert!(nv.verdict.valid);
    assert_eq!(Anomaly::with_detail("k".into(), "d".into()).detail, Some("d".to_string()));
}

#[test]
fn run_failures_describe_themselves() {
    let f = RunFailure::Violation {
        name: "inv".into(),
        seed: Seed(0xff),
        scenario: Scenario::new(vec![], Faults::swarm()).from_seed(Seed(0xff)),
    };
    assert_eq!(f.to_string(), "FAILED property `inv`  (re-run: PROPSIM_SEED=0x00000000000000ff)");
    assert_eq!(f.scenario().unwrap().origin_seed, Some(Seed(0xff)));
    assert!(RunFailure::NoExecutor.scenario().is_none());
    let n = RunFailure::Negotiation(BackendError::WhiteBoxOraclesOnBlackBoxExecutor(vec!["x".into()]));
    assert!(n.to_string().contains(": x."));
}

#[test]
fn network_presets() {
    let m = InMemory::unordered_lossy();
    assert_eq!(m.delay_ms, 0..50);
    assert_eq!(f64::from_bits(m.loss.to_bits()), 0.02);
    assert_eq!(f64::from_bits(m.duplicate.to_bits()), 0.01);
    assert!(!m.ordered);
    assert_eq!(InMemory::ordered(), NetworkModel::ordered_reliable());
    assert!(DeterministicExecutor::new().capabilities().world_snapshots);
}

#[test]
fn first_failure_prefers_properties_then_oracles() {
    let ok = |n: &str| NamedVerdict::new(n.to_string(), Verdict::valid());
    let bad = |n: &str| NamedVerdict::new(n.to_string(), Verdict::invalid(vec![Anomaly::new("x".to_string())]));
    let props = vec![ok("p1"), bad("p2"), bad("p3")];
    let oracles = vec![bad("o1")];
    assert_eq!(first_failure(&props, &oracles).map(|nv| nv.name.as_str()), Some("p2"));
    assert_eq!(first_failure(&[ok("p1")], &oracles).map(|nv| nv.name.as_str()), Some("o1"));
    assert!(first_failure(&[ok("p1")], &[ok("o1")]).is_none());
    assert!(first_failure(&[], &[]).is_none());
}

#[test]
fn fails_named_matches_name_and_failure() {
    let ok = NamedVerdict::new("a".to_string(), Verdict::valid());
    let bad = NamedVerdict::new("b".to_string(), Verdict::invalid(vec![]));
    let vs = vec![ok, bad];
    assert!(fails_named(&vs, "b"));
    assert!(!fails_named(&vs, "a"));
    assert!(!fails_named(&vs, "c"));
}

#[test]
fn pinned_plan_keeps_its_settings_and_replays_the_ops() {
    let data = PlanData { nodes: 4, network: Some(NetworkModel::ordered_reliable()), faults: None, seeds: 7, replay: None };
    let ops = vec![FrozenOp::new(NodeId(1), Value::Int(2))];
    let pinned = data_with_ops(&data, &ops);
    assert_eq!(pinned.nodes, 4);
    assert_eq!(pinned.seeds, 7);
    assert_eq!(pinned.network, Some(NetworkModel::ordered_reliable()));
    assert!(pinned.faults.is_none());
    let replay = pinned.replay.expect("a pinned scenario");
    assert_eq!(replay.ops, ops);
    assert_eq!(replay.origin_seed, None);
    assert_eq!(replay.faults, Faults::swarm());
}

#[test]
fn shrinking_drops_ops_from_the_end_while_the_failure_persists() {
    let full: Vec<FrozenOp> = (0..5).map(|i| FrozenOp::new(NodeId(0), Value::Int(i))).collect();
    // Fails whenever op 1 is present: shrinks to the first two ops.
    let r = shrink_prefix(&full, |ops: &[FrozenOp]| ops.len() >= 2);
    assert_eq!(r, full[..2].to_vec());
    // Always fails: shrinks to nothing.
    assert!(shrink_prefix(&full, |_ops: &[FrozenOp]| true).is_empty());
    // Never fails once shortened: keeps the full stream.
    assert_eq!(shrink_prefix(&full, |_ops: &[FrozenOp]| false), full);
}

#[test]
fn ops_are_grouped_by_process_modulo_the_cluster() {
    let ops: Vec<FrozenOp> = [0u64, 1, 2, 3, 4].iter().map(|p| FrozenOp::new(NodeId(*p), Value::Nil)).collect();
    assert_eq!(group_by_process(&ops, 2), vec![vec![0, 2, 4], vec![1, 3]]);
    assert_eq!(group_by_process(&ops, 1), vec![vec![0, 1, 2, 3, 4]]);
}

#[test]
fn the_horizon_is_checked_for_overflow() {
    let data = PlanData::default();
    assert_eq!(checked_run_horizon(&data), Some(15_000_000_000));
    let late = Faults::scripted().at(Duration::MAX).heal_all();
    let data = PlanData { faults: Some(late), ..PlanData::default() };
    assert_eq!(checked_run_horizon(&data), None);
}
