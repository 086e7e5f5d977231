use proptest::strategy::{Just, Strategy};

use propsim::sim::workload::{chacha_seed, keep_sampled, resolve_ops};
use propsim::{Faults, FrozenOp, NodeId, PlanData, Scenario, Seed, Value};

fn plan(seeds: usize) -> PlanData {
    PlanData { nodes: 3, network: None, faults: None, seeds, replay: None }
}

#[test]
fn replay_ops_are_taken_as_pinned() {
    let ops = vec![FrozenOp::new(NodeId(1), Value::Int(5)), FrozenOp::new(NodeId(2), Value::keyword("read")).routed_to(NodeId(0))];
    let mut data = plan(10);
    data.replay = Some(Scenario::new(ops.clone(), Faults::swarm()));
    let strategy = Just(FrozenOp::new(NodeId(9), Value::Nil)).boxed();
    assert_eq!(resolve_ops(&data, Some(&strategy), Seed(7)), ops);
}

#[test]
fn no_workload_means_no_ops() {
    assert!(resolve_ops(&plan(10), None, Seed(7)).is_empty());
}

#[test]
fn sampling_draws_once_per_seed_within_bounds() {
    let strategy = Just(FrozenOp::new(NodeId(0), Value::Int(1))).boxed();
    assert_eq!(resolve_ops(&plan(3), Some(&strategy), Seed(1)).len(), 3);
    assert_eq!(resolve_ops(&plan(0), Some(&strategy), Seed(1)).len(), 1);
    assert_eq!(resolve_ops(&plan(500), Some(&strategy), Seed(1)).len(), 64);
}

#[test]
fn sampling_is_determined_by_the_seed() {
    let strategy = (0i64..1_000_000).prop_map(|v| FrozenOp::new(NodeId(0), Value::Int(v))).boxed();
    let a = resolve_ops(&plan(20), Some(&strategy), Seed(42));
    let b = resolve_ops(&plan(20), Some(&strategy), Seed(42));
    let c = resolve_ops(&plan(20), Some(&strategy), Seed(43));
    assert_eq!(a, b);
    assert_ne!(a, c);
}

#[test]
fn generator_seed_repeats_the_little_endian_bytes() {
    let bytes = chacha_seed(0x0102_0304_0506_0708);
    let word = [8u8, 7, 6, 5, 4, 3, 2, 1];
    assert_eq!(bytes.len(), 32);
    for (i, b) in bytes.iter().enumerate() {
        assert_eq!(*b, word[i % 8]);
    }
}

#[test]
fn sampled_ops_keep_the_draws_that_did_not_give_up_in_order() {
    let a = FrozenOp::new(NodeId(0), Value::Int(1));
    let b = FrozenOp::new(NodeId(1), Value::Int(2));
    let kept = keep_sampled(vec![Some(a.clone()), None, Some(b.clone()), None]);
    assert_eq!(kept, vec![a, b]);
    assert!(keep_sampled(vec![None, None]).is_empty());
}
