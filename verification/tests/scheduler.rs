use propsim::sim::scheduler::PoppedEvent;
use propsim::sim::{begin_client_op, finish_client_op};
use propsim::FrozenOp;
use propsim::{FaultAction, Function, NetworkModel, NodeId, OpKind, OpToken, ProcessId, RunEvent, SchedCore, Value};
use std::time::Duration;

type Core = SchedCore<u32, &'static str>;

fn fresh(nodes: usize) -> Core {
    SchedCore::new(1, NetworkModel::ordered_reliable(), nodes)
}

#[test]
fn events_fire_in_time_then_enqueue_order() {
    let mut c = fresh(2);
    c.schedule_client_op(5_000_000, NodeId(0), 0);
    c.schedule_client_op(1_000_000, NodeId(1), 1);
    c.schedule_client_op(5_000_000, NodeId(1), 2);
    let mut order = Vec::new();
    while let Some(ev) = c.pop() {
        match ev {
            PoppedEvent::ClientOp { index, .. } => order.push((c.now, index)),
            _ => panic!("unexpected event"),
        }
    }
    assert_eq!(order, vec![(1_000_000, 1), (5_000_000, 0), (5_000_000, 2)]);
}

#[test]
fn horizon_stops_the_run() {
    let mut c = fresh(1);
    c.horizon = 2_000_000;
    c.schedule_client_op(3_000_000, NodeId(0), 0);
    assert!(c.pop().is_none());
    assert_eq!(c.now, 2_000_000);
    assert!(c.queue.is_empty());
}

#[test]
fn ops_open_and_close_once() {
    let mut c = fresh(1);
    let t = c.open_op(ProcessId(0), NodeId(0), Function::new("read"), Value::Nil);
    assert_eq!(t, OpToken(0));
    assert_eq!(c.closed_for(ProcessId(0)), 0);
    assert_eq!(c.pending_f(t), Some(Function::new("read")));
    c.close_op(t, OpKind::Success, Value::Int(3));
    c.close_op(t, OpKind::Fail, Value::Nil);
    let h = c.history.entries();
    assert_eq!(h.len(), 2);
    assert_eq!(h[1].kind, OpKind::Success);
    assert_eq!(h[1].index, 1);
    assert_eq!(h[1].f, Function::new("read"));
    assert_eq!(c.closed_for(ProcessId(0)), 1);
    assert_eq!(c.pending_f(t), None);
}

#[test]
fn crash_closes_the_victims_open_ops_as_info() {
    let mut c = fresh(2);
    let a = c.open_op(ProcessId(0), NodeId(0), Function::new("w"), Value::Int(1));
    let _b = c.open_op(ProcessId(1), NodeId(1), Function::new("w"), Value::Int(2));
    let r = c.apply_fault(FaultAction::Crash(NodeId(0)));
    assert_eq!(r, None);
    assert!(c.is_crashed(NodeId(0)));
    let h = c.history.entries();
    assert_eq!(h.len(), 3);
    assert_eq!(h[2].kind, OpKind::Info);
    assert_eq!(h[2].process, ProcessId(0));
    assert_eq!(c.pending_f(a), None);
    assert!(!c.connected(NodeId(0), NodeId(1)));
    let back = c.apply_fault(FaultAction::Restart(NodeId(0)));
    assert_eq!(back, Some(NodeId(0)));
    assert!(c.connected(NodeId(0), NodeId(1)));
    assert_eq!(c.events, vec![RunEvent::NodeRejoined(Duration::ZERO, NodeId(0))]);
    c.force_close_pending();
    assert_eq!(c.history.entries().len(), 4);
    assert_eq!(c.history.entries()[3].process, ProcessId(1));
}

#[test]
fn partitions_cut_links_until_healed() {
    let mut c = fresh(3);
    c.apply_fault(FaultAction::Partition(vec![NodeId(0)], vec![NodeId(1), NodeId(2)]));
    assert!(!c.connected(NodeId(0), NodeId(1)));
    assert!(c.connected(NodeId(1), NodeId(2)));
    c.apply_fault(FaultAction::HealAll);
    assert!(c.connected(NodeId(0), NodeId(1)));
    assert_eq!(c.events, vec![RunEvent::NetworkHealed(Duration::ZERO)]);
}

#[test]
fn stale_timers_are_skipped() {
    let mut c = fresh(1);
    c.arm_timer(NodeId(0), "Tick".to_string(), "first", 1_000_000);
    c.arm_timer(NodeId(0), "Tick".to_string(), "second", 2_000_000);
    match c.pop() {
        Some(PoppedEvent::Timer { node, timer }) => {
            assert_eq!(node, NodeId(0));
            assert_eq!(timer, "second");
        }
        _ => panic!("expected the re-armed timer"),
    }
    assert_eq!(c.now, 2_000_000);
    c.arm_timer(NodeId(0), "Tick".to_string(), "third", 1_000_000);
    c.cancel_timer(NodeId(0), "Tick".to_string());
    assert!(c.pop().is_none());
}

#[test]
fn deliveries_respect_partitions_and_fifo() {
    let mut c = fresh(2);
    c.schedule_delivery(NodeId(0), NodeId(1), 7);
    c.apply_fault(FaultAction::Crash(NodeId(1)));
    c.schedule_delivery(NodeId(0), NodeId(1), 8);
    // the first message was queued before the crash but its target is down
    assert!(c.pop().is_none());
    let mut d = fresh(2);
    d.schedule_delivery(NodeId(0), NodeId(1), 1);
    d.schedule_delivery(NodeId(0), NodeId(1), 2);
    let mut got = Vec::new();
    while let Some(PoppedEvent::Deliver { msg, .. }) = d.pop() {
        got.push(msg);
    }
    assert_eq!(got, vec![1, 2]);
}

#[test]
fn peers_exclude_self() {
    let c = fresh(4);
    assert_eq!(c.peers(NodeId(2)), vec![NodeId(0), NodeId(1), NodeId(3)]);
}

#[test]
fn now_nanos_saturates() {
    assert_eq!(propsim::sim::scheduler::now_nanos(5), 5);
    assert_eq!(propsim::sim::scheduler::now_nanos(u128::MAX), i64::MAX);
}

#[test]
fn crash_closes_the_ops_the_node_was_servicing() {
    let mut c = fresh(3);
    // process 2's op is serviced by node 0; process 0's op by node 1
    let routed = c.open_op(ProcessId(2), NodeId(0), Function::new("w"), Value::Int(1));
    let elsewhere = c.open_op(ProcessId(0), NodeId(1), Function::new("w"), Value::Int(2));
    assert_eq!(c.apply_fault(FaultAction::Crash(NodeId(0))), None);
    let h = c.history.entries();
    assert_eq!(h.len(), 3);
    assert_eq!(h[2].kind, OpKind::Info);
    assert_eq!(h[2].process, ProcessId(2));
    assert_eq!(c.pending_f(routed), None);
    assert_eq!(c.pending_f(elsewhere), Some(Function::new("w")));
}

#[test]
fn client_ops_begin_and_finish_as_their_node_answers() {
    let mut c = fresh(2);
    let op = FrozenOp::new(NodeId(1), Value::keyword("read"));
    // undecodable: Invoke then Fail, no token
    assert_eq!(begin_client_op(&mut c, NodeId(1), &op, None, true), None);
    // decoded but its node is down: Invoke then Info
    assert_eq!(begin_client_op(&mut c, NodeId(1), &op, Some(Function::new("get")), false), None);
    // decoded and up: Invoke, left open
    let tok = begin_client_op(&mut c, NodeId(1), &op, Some(Function::new("get")), true).unwrap();
    assert_eq!(tok, OpToken(2));
    finish_client_op(&mut c, tok, None);
    assert_eq!(c.pending_f(tok), Some(Function::new("get")));
    finish_client_op(&mut c, tok, Some(Value::Int(4)));
    let kinds: Vec<OpKind> = c.history.entries().iter().map(|e| e.kind).collect();
    assert_eq!(
        kinds,
        vec![OpKind::Invoke, OpKind::Fail, OpKind::Invoke, OpKind::Info, OpKind::Invoke, OpKind::Success]
    );
    assert_eq!(c.history.entries()[0].f, Function::new("read"));
    assert_eq!(c.history.entries()[5].value, Value::Int(4));
}

#[test]
fn fifo_links_deliver_in_send_order_under_random_delays() {
    let mut c = fresh(3);
    c.set_model(NetworkModel {
        delay_ms: 10..50,
        loss: propsim::Prob::never(),
        duplicate: propsim::Prob::never(),
        ordered: true,
    });
    for m in 0..20u32 {
        c.schedule_delivery(NodeId(0), NodeId(1), m);
        c.schedule_delivery(NodeId(2), NodeId(1), 100 + m);
    }
    let mut from0 = Vec::new();
    let mut from2 = Vec::new();
    let mut last = 0u128;
    while let Some(PoppedEvent::Deliver { from, msg, .. }) = c.pop() {
        assert!(c.now >= last);
        last = c.now;
        if from == NodeId(0) { from0.push(msg) } else { from2.push(msg) }
    }
    assert_eq!(from0, (0..20).collect::<Vec<u32>>());
    assert_eq!(from2, (100..120).collect::<Vec<u32>>());
}
