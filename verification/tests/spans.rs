use propsim::linearizability::{history_spans, pair_spans};
use propsim::{Function, History, OpEntry, OpKind, ProcessId, Time, Value};

fn e(index: u64, kind: OpKind, p: u64) -> OpEntry {
    OpEntry {
        index,
        time: Time::virtual_nanos(index as i64),
        kind,
        process: ProcessId(p),
        f: Function::new("w"),
        value: Value::Nil,
    }
}

#[test]
fn completions_pair_with_their_process_invoke() {
    let h = vec![
        e(0, OpKind::Invoke, 0),
        e(1, OpKind::Invoke, 1),
        e(2, OpKind::Success, 1),
        e(3, OpKind::Fail, 0),
        e(4, OpKind::Invoke, 0),
        e(5, OpKind::Info, 0),
        e(6, OpKind::Success, 2),
    ];
    // the failed and the indeterminate ops are excluded; the orphan
    // completion is ignored
    assert_eq!(pair_spans(&h), vec![(1, 2)]);
    assert_eq!(history_spans(&History::new(h)), vec![(1, 2)]);
}

#[test]
fn the_most_recent_open_invoke_is_closed() {
    let h = vec![
        e(0, OpKind::Invoke, 0),
        e(1, OpKind::Invoke, 0),
        e(2, OpKind::Success, 0),
        e(3, OpKind::Success, 0),
    ];
    assert_eq!(pair_spans(&h), vec![(1, 2), (0, 3)]);
}
