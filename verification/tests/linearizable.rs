//! A single register's linearizability: a valid history passes, a stale-read
//! history is rejected.

use propsim::linearizability::{linearizable, sequentially_consistent, Response, SequentialModel, Span};
use propsim::{Function, History, OpEntry, OpKind, ProcessId, Time, Value, Witness};

/// A read/write register holding an `i64` (0 initially).
struct RegisterModel;

#[derive(Clone)]
enum RegOp {
    Read,
    Write(i64),
}

impl SequentialModel for RegisterModel {
    type State = i64;
    type Op = RegOp;

    fn init(&self) -> i64 {
        0
    }

    fn step(&self, s: &i64, op: &RegOp) -> (i64, Response) {
        match op {
            RegOp::Read => (*s, Response(Value::Int(*s))),
            RegOp::Write(v) => (*v, Response(Value::Int(*v))),
        }
    }

    fn decode(&self, f: &str, value_invoke: &Value, value_complete: &Value) -> Option<(RegOp, Response)> {
        match f {
            "write" => {
                if let Value::Int(v) = value_invoke {
                    Some((RegOp::Write(*v), Response(Value::Int(*v))))
                } else {
                    None
                }
            }
            "read" => {
                if let Value::Int(v) = value_complete {
                    Some((RegOp::Read, Response(Value::Int(*v))))
                } else {
                    None
                }
            }
            _ => None,
        }
    }
}

fn op(index: u64, kind: OpKind, process: u64, f: &str, value: i64) -> OpEntry {
    OpEntry {
        index,
        time: Time::virtual_nanos(index as i64),
        kind,
        process: ProcessId(process),
        f: Function::new(f),
        value: Value::Int(value),
    }
}

#[test]
fn valid_register_history_is_linearizable() {
    // P0 writes 1 (ok), then P1 reads 1 (ok). Sequential and obviously valid.
    let h = History::new(vec![
        op(0, OpKind::Invoke, 0, "write", 1),
        op(1, OpKind::Success, 0, "write", 1),
        op(2, OpKind::Invoke, 1, "read", 0),
        op(3, OpKind::Success, 1, "read", 1),
    ]);
    let oracle = linearizable(RegisterModel);
    let verdict = oracle.check_history(&h);
    assert!(verdict.valid);
}

#[test]
fn stale_read_is_rejected() {
    // P0 writes 1 and completes; afterward P1 reads 0 — impossible for a register
    // (the write already committed before the read began).
    let h = History::new(vec![
        op(0, OpKind::Invoke, 0, "write", 1),
        op(1, OpKind::Success, 0, "write", 1),
        op(2, OpKind::Invoke, 1, "read", 0),
        op(3, OpKind::Success, 1, "read", 0),
    ]);
    let oracle = linearizable(RegisterModel);
    let verdict = oracle.check_history(&h);
    assert!(!verdict.valid, "stale read must be non-linearizable");
    assert!(verdict.anomalies.iter().any(|a| a.kind == "non-linearizable"));
}

#[test]
fn concurrent_read_can_linearize_either_way() {
    // P0's write(1) overlaps P1's read; the read may see 0 or 1. Reading 0 is
    // valid because the read can be linearized BEFORE the write.
    let h = History::new(vec![
        op(0, OpKind::Invoke, 0, "write", 1),
        op(1, OpKind::Invoke, 1, "read", 0),
        op(2, OpKind::Success, 1, "read", 0),
        op(3, OpKind::Success, 0, "write", 1),
    ]);
    let oracle = linearizable(RegisterModel);
    assert!(oracle.check_history(&h).valid);
}

#[test]
fn stale_read_witness_names_the_ordering() {
    let h = History::new(vec![
        op(0, OpKind::Invoke, 0, "write", 1),
        op(1, OpKind::Success, 0, "write", 1),
        op(2, OpKind::Invoke, 1, "read", 0),
        op(3, OpKind::Success, 1, "read", 0),
    ]);
    let verdict = linearizable(RegisterModel).check_history(&h);
    assert_eq!(verdict.anomalies.len(), 1);
    assert_eq!(verdict.anomalies[0].detail, None);
    match verdict.witness {
        Some(Witness::Text(t)) => assert_eq!(t, "no valid linearizable ordering of 2 operations"),
        other => panic!("expected a text witness, got {other:?}"),
    }
}

#[test]
fn stale_read_is_sequentially_consistent() {
    // Without the real-time order the read can be placed before the write.
    let h = History::new(vec![
        op(0, OpKind::Invoke, 0, "write", 1),
        op(1, OpKind::Success, 0, "write", 1),
        op(2, OpKind::Invoke, 1, "read", 0),
        op(3, OpKind::Success, 1, "read", 0),
    ]);
    let oracle = sequentially_consistent(RegisterModel);
    assert_eq!(oracle.name(), "sequentially-consistent");
    assert!(oracle.check_history(&h).valid);
}

#[test]
fn impossible_read_is_not_sequentially_consistent() {
    // Nobody ever wrote 7.
    let h = History::new(vec![
        op(0, OpKind::Invoke, 0, "write", 1),
        op(1, OpKind::Success, 0, "write", 1),
        op(2, OpKind::Invoke, 1, "read", 0),
        op(3, OpKind::Success, 1, "read", 7),
    ]);
    let verdict = sequentially_consistent(RegisterModel).check_history(&h);
    assert!(!verdict.valid);
    assert_eq!(verdict.anomalies[0].kind, "not-sequentially-consistent");
}

#[test]
fn failed_ops_are_left_out_of_the_order() {
    // A failed write never took effect, so reading 0 afterwards is fine.
    let h = History::new(vec![
        op(0, OpKind::Invoke, 0, "write", 1),
        op(1, OpKind::Fail, 0, "write", 1),
        op(2, OpKind::Invoke, 1, "read", 0),
        op(3, OpKind::Success, 1, "read", 0),
    ]);
    let oracle = linearizable(RegisterModel);
    assert_eq!(oracle.parse_spans(h.entries()).len(), 1);
    assert!(oracle.check_history(&h).valid);
}

#[test]
fn search_over_hand_built_spans() {
    let oracle = linearizable(RegisterModel);
    assert!(oracle.search(&Vec::new()));
    let spans = vec![
        Span { op: RegOp::Write(3), response: Response::ok(Value::Int(3)), start: 0, finish: 1 },
        Span { op: RegOp::Read, response: Response::ok(Value::Int(3)), start: 2, finish: 3 },
    ];
    assert!(oracle.search(&spans));
    let stale = vec![
        Span { op: RegOp::Write(3), response: Response::ok(Value::Int(3)), start: 0, finish: 1 },
        Span { op: RegOp::Read, response: Response::ok(Value::Int(0)), start: 2, finish: 3 },
    ];
    assert!(!oracle.search(&stale));
}

#[test]
fn indeterminate_write_is_left_out_of_the_order() {
    // The write's outcome is unknown: it may never have taken effect, so
    // reading 0 afterwards is accepted.
    let h = History::new(vec![
        op(0, OpKind::Invoke, 0, "write", 1),
        op(1, OpKind::Info, 0, "write", 1),
        op(2, OpKind::Invoke, 1, "read", 0),
        op(3, OpKind::Success, 1, "read", 0),
    ]);
    let oracle = linearizable(RegisterModel);
    assert_eq!(oracle.parse_spans(h.entries()).len(), 1);
    assert!(oracle.check_history(&h).valid);
}
