use propsim::sim::faults::{lower, lower_swarm};
use propsim::sim::scheduler::PoppedEvent;
use propsim::{
    FaultAction, FaultKind, Faults, Mode, NetworkModel, NodeId, Prob, SchedCore, ScriptedAction,
    ScriptedEvent, SimRng,
};
use std::time::Duration;

#[test]
fn swarm_builder_collects_kinds() {
    let f = Faults::swarm().partitions().crash_restart().latency_ms(5..9).reorder().mode(Mode::Liveness);
    assert!(f.is_swarm());
    assert_eq!(f.get_mode(), Mode::Liveness);
    let kinds = f.swarm_kinds().unwrap();
    assert_eq!(kinds.len(), 4);
    assert_eq!(kinds[2], FaultKind::Latency(5..9));
    assert!(f.script().is_none());
}

#[test]
fn scripted_builder_records_steps() {
    let f = Faults::scripted()
        .at(Duration::from_millis(100))
        .partition(&[0], &[1, 2])
        .at(Duration::from_millis(300))
        .heal_all()
        .at(Duration::from_secs(1))
        .crash(2)
        .at(Duration::from_secs(2))
        .restart(2);
    let s = f.script().unwrap();
    assert_eq!(s.len(), 4);
    assert_eq!(
        s[0],
        ScriptedEvent {
            at: Duration::from_millis(100),
            action: ScriptedAction::Partition(vec![NodeId(0)], vec![NodeId(1), NodeId(2)]),
        }
    );
    assert_eq!(s[3].action, ScriptedAction::Restart(NodeId(2)));
    assert_eq!(f.get_mode(), Mode::Safety);
}

#[test]
fn verbs_of_the_other_regime_change_nothing() {
    let f = Faults::scripted().partitions().reorder();
    assert_eq!(f.script().unwrap().len(), 0);
    let g = Faults::swarm().at(Duration::from_secs(1)).crash(0);
    assert_eq!(g.swarm_kinds().unwrap().len(), 0);
    assert!(g.script().is_none());
}

#[test]
fn scripted_faults_land_on_the_timeline() {
    let f = Faults::scripted()
        .at(Duration::from_millis(200))
        .heal_all()
        .at(Duration::from_millis(100))
        .crash(1);
    let mut model = NetworkModel::ordered_reliable();
    let mut sched: SchedCore<u8, u8> = SchedCore::new(0, model.clone(), 2);
    let mut rng = SimRng::new(9);
    lower(Some(&f), &mut model, &mut sched, &mut rng, 2);
    assert_eq!(model, NetworkModel::ordered_reliable());
    match sched.pop() {
        Some(PoppedEvent::Fault { rejoined: None }) => {}
        _ => panic!("expected the crash first"),
    }
    assert_eq!(sched.now, 100_000_000);
    assert!(sched.is_crashed(NodeId(1)));
    assert!(matches!(sched.pop(), Some(PoppedEvent::Fault { rejoined: None })));
    assert_eq!(sched.now, 200_000_000);
    assert!(sched.pop().is_none());
}

#[test]
fn no_faults_change_nothing() {
    let mut model = NetworkModel::ordered_reliable();
    let mut sched: SchedCore<u8, u8> = SchedCore::new(0, model.clone(), 2);
    let mut rng = SimRng::new(9);
    lower(None, &mut model, &mut sched, &mut rng, 2);
    assert!(sched.queue.is_empty());
}

#[test]
fn swarm_lowering_is_a_function_of_the_seed() {
    let kinds = vec![
        FaultKind::Partitions,
        FaultKind::CrashRestart,
        FaultKind::Latency(3..30),
        FaultKind::Drop(Prob::from_bits(0.1f64.to_bits())),
        FaultKind::Reorder,
    ];
    for seed in 0..64u64 {
        let mut m1 = NetworkModel::ordered_reliable();
        let mut m2 = NetworkModel::ordered_reliable();
        let mut r1 = SimRng::new(seed);
        let mut r2 = SimRng::new(seed);
        let p1 = lower_swarm(&kinds, Mode::Liveness, &mut m1, &mut r1, 5);
        let p2 = lower_swarm(&kinds, Mode::Liveness, &mut m2, &mut r2, 5);
        assert_eq!(m1, m2);
        assert_eq!(p1.len(), p2.len());
        assert!(p1.len() <= 2 * kinds.len() + 1);
        let has_partition = p1.iter().any(|(_, a)| matches!(a, FaultAction::Partition(..)));
        if has_partition {
            // liveness mode heals after a partition, last
            assert!(matches!(p1.last(), Some((_, FaultAction::HealAll))));
        }
        for (at, a) in &p1 {
            assert!(*at <= 4_000_000_000);
            assert!(*at >= 100_000_000 && *at < 4_000_000_000);
            if let FaultAction::Partition(x, y) = a {
                assert!(!x.is_empty() && !y.is_empty());
                assert_eq!(x.len() + y.len(), 5);
            }
        }
    }
}

#[test]
fn safety_swarm_never_recovers() {
    let kinds = vec![FaultKind::Partitions, FaultKind::CrashRestart];
    for seed in 0..64u64 {
        let mut m = NetworkModel::ordered_reliable();
        let mut r = SimRng::new(seed);
        let plan = lower_swarm(&kinds, Mode::Safety, &mut m, &mut r, 3);
        assert!(plan.iter().all(|(_, a)| !matches!(a, FaultAction::HealAll | FaultAction::Restart(_))));
    }
}
