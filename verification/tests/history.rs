use propsim::history::log::first_divergence;
use propsim::history::op::{entries_equal, values_equal};
use propsim::history::edn::parse_edn;
use propsim::history::json::parse_json;
use propsim::{Clock, Function, History, OpEntry, OpKind, ProcessId, Time, Value};

fn sample_history() -> History {
    History::new(vec![
        OpEntry {
            index: 0,
            time: Time::virtual_nanos(0),
            kind: OpKind::Invoke,
            process: ProcessId(0),
            f: Function::new("txn"),
            // [[:append :x 1] [:r :y nil]]
            value: Value::List(vec![
                Value::List(vec![
                    Value::keyword("append"),
                    Value::keyword("x"),
                    Value::Int(1),
                ]),
                Value::List(vec![Value::keyword("r"), Value::keyword("y"), Value::Nil]),
            ]),
        },
        OpEntry {
            index: 1,
            time: Time::virtual_nanos(1_500_000),
            kind: OpKind::Success,
            process: ProcessId(0),
            f: Function::new("txn"),
            value: Value::List(vec![
                Value::List(vec![
                    Value::keyword("append"),
                    Value::keyword("x"),
                    Value::Int(1),
                ]),
                Value::List(vec![
                    Value::keyword("r"),
                    Value::keyword("y"),
                    Value::List(vec![Value::Int(7), Value::Int(8)]),
                ]),
            ]),
        },
        OpEntry {
            index: 2,
            time: Time::wall_nanos(42),
            kind: OpKind::Info,
            process: ProcessId(3),
            f: Function::new("write"),
            value: Value::Str("hi".into()),
        },
    ])
}

#[test]
fn edn_round_trips() {
    let h = sample_history();
    let edn = h.to_jepsen_edn();
    let back = History::from_jepsen(&edn).expect("parse EDN");
    assert_eq!(h, back, "EDN round trip must be lossless\n--- edn ---\n{edn}");
}

#[test]
fn json_round_trips() {
    let h = sample_history();
    let json = h.to_jepsen_json();
    let back = History::from_jepsen(&json).expect("parse JSON");
    assert_eq!(h, back, "JSON round trip must be lossless\n--- json ---\n{json}");
}

#[test]
fn clock_provenance_is_preserved() {
    let h = sample_history();
    let back = History::from_jepsen(&h.to_jepsen_edn()).unwrap();
    assert_eq!(back.entries()[0].time.clock, Clock::Virtual);
    assert_eq!(back.entries()[2].time.clock, Clock::Wall);
}

#[test]
fn golden_edn_shape() {
    let h = History::new(vec![OpEntry {
        index: 0,
        time: Time::virtual_nanos(0),
        kind: OpKind::Invoke,
        process: ProcessId(0),
        f: Function::new("read"),
        value: Value::Nil,
    }]);
    let edn = h.to_jepsen_edn();
    assert_eq!(
        edn.trim(),
        "{:index 0, :time 0, :clock :virtual, :type :invoke, :process 0, :f :read, :value nil}"
    );
}

#[test]
fn ingests_foreign_history_without_clock_tag() {
    let foreign = "{:index 0, :time 100, :type :ok, :process 1, :f :read, :value 5}";
    let h = History::from_jepsen(foreign).expect("parse foreign");
    assert_eq!(h.entries().len(), 1);
    assert_eq!(h.entries()[0].time.clock, Clock::Wall);
    assert_eq!(h.entries()[0].time.nanos, 100);
    assert_eq!(h.entries()[0].value, Value::Int(5));
}

#[test]
fn ingests_single_vector_of_maps() {
    let vec_form = "[{:index 0, :time 0, :type :invoke, :process 0, :f :read, :value nil} \
                     {:index 1, :time 5, :type :ok, :process 0, :f :read, :value 9}]";
    let h = History::from_jepsen(vec_form).expect("parse vector form");
    assert_eq!(h.entries().len(), 2);
    assert_eq!(h.entries()[1].value, Value::Int(9));
}

#[test]
fn golden_json_shape() {
    let h = History::new(vec![OpEntry {
        index: 3,
        time: Time::wall_nanos(-7),
        kind: OpKind::Fail,
        process: ProcessId(2),
        f: Function::new("cas"),
        value: Value::Str("a\"b".into()),
    }]);
    assert_eq!(
        h.to_jepsen_json(),
        "[{\":index\":3,\":time\":-7,\":clock\":\":wall\",\":type\":\":fail\",\":process\":2,\":f\":\":cas\",\":value\":\"a\\\"b\"}]"
    );
}

#[test]
fn empty_history_renders_and_reads_back() {
    let h = History::new(Vec::new());
    assert_eq!(h.to_jepsen_edn(), "");
    assert_eq!(h.to_jepsen_json(), "[]");
    assert_eq!(History::from_jepsen("").unwrap(), h);
    assert_eq!(History::from_jepsen("[]").unwrap(), h);
    assert_eq!(History::from_jepsen("  \n\n ").unwrap(), h);
}

#[test]
fn crlf_lines_and_blank_lines_are_accepted() {
    let text = "{:index 0, :time 1, :type :invoke, :process 0, :f :w, :value 1}\r\n\
                \r\n   \n\
                {:index 1, :time 2, :type :ok, :process 0, :f :w, :value 1}\n";
    let h = History::from_jepsen(text).unwrap();
    assert_eq!(h.entries().len(), 2);
    assert_eq!(h.entries()[1].kind, OpKind::Success);
    assert_eq!(h.entries()[1].f, Function::new("w"));
}

#[test]
fn string_fields_and_string_keys_are_accepted() {
    let text = "{\"index\" \"12\", \"time\" 3, \"type\" \"info\", \"process\" \"-1\", \"f\" \"put\"}";
    let h = History::from_jepsen(text).unwrap();
    let e = &h.entries()[0];
    assert_eq!(e.index, 12);
    assert_eq!(e.kind, OpKind::Info);
    // negative process numbers wrap as two's complement
    assert_eq!(e.process, ProcessId(u64::MAX));
    assert_eq!(e.value, Value::Nil);
    assert_eq!(e.time.clock, Clock::Wall);
}

#[test]
fn large_indices_round_trip_through_their_signed_rendering() {
    let h = History::new(vec![OpEntry {
        index: u64::MAX,
        time: Time::virtual_nanos(i64::MIN),
        kind: OpKind::Invoke,
        process: ProcessId(1 << 63),
        f: Function::new("x"),
        value: Value::Nil,
    }]);
    let edn = h.to_jepsen_edn();
    assert!(edn.starts_with("{:index -1, :time -9223372036854775808,"));
    assert_eq!(History::from_jepsen(&edn).unwrap(), h);
    assert_eq!(History::from_jepsen(&h.to_jepsen_json()).unwrap(), h);
}

#[test]
fn malformed_entries_are_refused() {
    let cases = [
        "{:index 0, :time 0, :type :invoke, :process 0}",
        "{:index 0, :time 0, :type :nope, :process 0, :f :r}",
        "{:index 0, :time 0, :clock :sundial, :type :ok, :process 0, :f :r}",
        "{:index 0, :time 0, :clock 5, :type :ok, :process 0, :f :r}",
        "{:index x, :time 0, :type :ok, :process 0, :f :r}",
        "{:time 0, :type :ok, :process 0, :f :r}",
        "[1 2]",
        ":not-a-map",
        "{:index 0",
        "[{:index 0, :time 0, :type :ok, :process 0, :f :r}] trailing",
    ];
    for c in cases {
        assert!(History::from_jepsen(c).is_err(), "should refuse {c}");
    }
    let e = History::from_jepsen("{:index 0, :time 0, :type :nope, :process 0, :f :r}").unwrap_err();
    assert!(e.message().contains("nope"));
}

#[test]
fn first_matching_key_wins() {
    let text = "{:index 1, :index 2, :time 0, :type :ok, :process 0, :f :r, :value 1, \"value\" 2}";
    let h = History::from_jepsen(text).unwrap();
    assert_eq!(h.entries()[0].index, 1);
    assert_eq!(h.entries()[0].value, Value::Int(1));
}

#[test]
fn json_vector_is_detected_by_quoted_keys() {
    let text = "  [ { \"index\": 0, \"time\": 9, \"type\": \":invoke\", \"process\": 4, \"f\": \":read\", \"value\": null } ]";
    let h = History::from_jepsen(text).unwrap();
    assert_eq!(h.entries()[0].time.nanos, 9);
    assert_eq!(h.entries()[0].process, ProcessId(4));
    assert_eq!(h.entries()[0].f, Function::new("read"));
}

#[test]
fn value_codecs_read_what_they_write() {
    let v = Value::Mapping(vec![
        (Value::keyword("k"), Value::List(vec![Value::Bool(true), Value::Float("1.5".into())])),
        (Value::Str("s".into()), Value::Str("tab\there".into())),
    ]);
    let mut out = Vec::new();
    propsim::history::writer::write_edn(&mut out, &v);
    let text: String = out.iter().collect();
    assert_eq!(text, "{:k [true 1.5], \"s\" \"tab\\there\"}");
    assert_eq!(parse_edn(&text).unwrap(), v);
    let mut j = Vec::new();
    propsim::history::writer::write_json(&mut j, &v);
    let jt: String = j.iter().collect();
    assert_eq!(jt, "{\":k\":[true,1.5],\"s\":\"tab\\there\"}");
    assert_eq!(parse_json(&jt).unwrap(), v);
}

#[test]
fn edn_reader_handles_comments_commas_and_lists() {
    let v = parse_edn("; a comment\n(1, 2 ,3) ").unwrap();
    assert_eq!(v, Value::List(vec![Value::Int(1), Value::Int(2), Value::Int(3)]));
    assert_eq!(parse_edn("-12").unwrap(), Value::Int(-12));
    assert_eq!(parse_edn("\"a\\nb\"").unwrap(), Value::Str("a\nb".into()));
    assert!(parse_edn("[1 2").is_err());
    assert!(parse_edn("\"open").is_err());
}

#[test]
fn json_reader_decodes_unicode_escapes() {
    assert_eq!(parse_json("\"\\u0041\\u00e9\"").unwrap(), Value::Str("Aé".into()));
    assert!(parse_json("\"\\ud800\"").is_err());
    assert_eq!(parse_json("[1,2]").unwrap(), Value::List(vec![Value::Int(1), Value::Int(2)]));
}

#[test]
fn cloned_values_are_equal() {
    let h = sample_history();
    let c = h.clone();
    assert_eq!(h, c);
}

#[test]
fn identical_histories_do_not_diverge() {
    let a = sample_history();
    let b = sample_history();
    assert_eq!(first_divergence(&a, &b), None);
    assert!(entries_equal(&a.entries()[0], &b.entries()[0]));
}

#[test]
fn divergence_points_at_the_first_differing_entry() {
    let a = sample_history();
    let mut entries = a.entries().to_vec();
    entries[1].value = Value::Int(99);
    let b = History::new(entries);
    assert_eq!(first_divergence(&a, &b), Some(1));
    assert!(!entries_equal(&a.entries()[1], &b.entries()[1]));
}

#[test]
fn a_prefix_does_not_diverge() {
    let a = sample_history();
    let b = History::new(a.entries()[..1].to_vec());
    assert_eq!(first_divergence(&a, &b), None);
}

#[test]
fn value_equality_is_structural() {
    let x = Value::Mapping(vec![(Value::keyword("k"), Value::List(vec![Value::Int(1), Value::Nil]))]);
    let y = Value::Mapping(vec![(Value::keyword("k"), Value::List(vec![Value::Int(1), Value::Nil]))]);
    let z = Value::Mapping(vec![(Value::keyword("k"), Value::List(vec![Value::Int(1)]))]);
    assert!(values_equal(&x, &y));
    assert!(!values_equal(&x, &z));
    assert!(!values_equal(&Value::Str("a".to_string()), &Value::Keyword("a".to_string())));
}

fn op_map(pairs: Vec<(&str, Value)>) -> Value {
    Value::Mapping(pairs.into_iter().map(|(k, v)| (Value::keyword(k), v)).collect())
}

fn message(v: &Value) -> String {
    propsim::history::log::value_to_entry(v).unwrap_err().message().to_string()
}

#[test]
fn entry_errors_name_the_first_bad_field() {
    assert_eq!(message(&Value::Int(1)), "op entry is not a map");
    assert_eq!(message(&op_map(vec![])), "missing or non-integer `:index`");
    assert_eq!(message(&op_map(vec![("index", Value::Str("x".into()))])), "`:index` is not an integer");
    let base = vec![("index", Value::Int(0)), ("time", Value::Int(5))];
    let mut with_clock = base.clone();
    with_clock.push(("clock", Value::keyword("sundial")));
    assert_eq!(message(&op_map(with_clock)), "unknown clock `:sundial`");
    let mut bad_clock = base.clone();
    bad_clock.push(("clock", Value::Int(3)));
    assert_eq!(message(&op_map(bad_clock)), "`:clock` is not a keyword");
    assert_eq!(message(&op_map(base.clone())), "missing or malformed `:type`");
    let mut bad_type = base.clone();
    bad_type.push(("type", Value::keyword("maybe")));
    assert_eq!(message(&op_map(bad_type)), "unknown :type `:maybe`");
    let mut no_process = base.clone();
    no_process.push(("type", Value::keyword("ok")));
    assert_eq!(message(&op_map(no_process.clone())), "missing or non-integer `:process`");
    let mut no_f = no_process;
    no_f.push(("process", Value::Int(1)));
    assert_eq!(message(&op_map(no_f)), "missing or malformed `:f`");
}

#[test]
fn trailing_input_is_reported_at_its_byte_offset() {
    assert_eq!(parse_edn("1 2").unwrap_err().message(), "trailing input at byte 2 ");
    assert_eq!(parse_edn("\"é\" x").unwrap_err().message(), "trailing input at byte 5 ");
    assert_eq!(parse_json("[1] x").unwrap_err().message(), "trailing JSON input at byte 4");
    assert_eq!(parse_edn("[1 @]").unwrap_err().message(), "unrecognized token `@`");
}

#[test]
fn refused_histories_name_the_first_bad_entry() {
    let e = History::from_jepsen("{:index 0}").unwrap_err();
    assert_eq!(e.message(), "missing or non-integer `:time`");
    assert_eq!(e.to_string(), "history parse error: missing or non-integer `:time`");
    let e = History::from_jepsen("[{:index 0, :time 1, :type :ok, :process 0, :f :r} 5]").unwrap_err();
    assert_eq!(e.message(), "op entry is not a map");
    assert_eq!(History::from_jepsen("{:a 1}\n").unwrap_err().message(), "missing or non-integer `:index`");
    assert_eq!(History::from_jepsen("[1 2").unwrap_err().message(), "unterminated list/vector");
    assert_eq!(History::from_jepsen("{:x 1}").unwrap_err().message(), "missing or non-integer `:index`");
    assert_eq!(History::from_jepsen("5").unwrap_err().message(), "op entry is not a map");
}

#[test]
fn functions_convert_from_strings() {
    let s = String::from("read");
    assert_eq!(Function::from(s.clone()), Function::new("read"));
    assert_eq!(Function::from("read"), Function::new("read"));
    assert_eq!(Function::new(&s).as_str(), s.as_str());
}

#[test]
fn string_bodies_that_do_not_close_say_why() {
    assert_eq!(parse_edn("\"abc").unwrap_err().message(), "unterminated string");
    assert_eq!(parse_edn("\"a\\").unwrap_err().message(), "trailing escape");
    assert_eq!(parse_json("\"abc").unwrap_err().message(), "unterminated JSON string");
    assert_eq!(parse_json("\"a\\").unwrap_err().message(), "trailing JSON escape");
    assert_eq!(parse_json("\"\\u12").unwrap_err().message(), "truncated \\u escape");
    assert_eq!(parse_json("\"\\uzzzz\"").unwrap_err().message(), "invalid \\u escape");
    assert_eq!(parse_json("\"\\ud800\"").unwrap_err().message(), "invalid code point");
}

#[test]
fn infinities_and_nans_are_written_as_nil() {
    let mut out: Vec<char> = Vec::new();
    propsim::history::writer::write_edn(&mut out, &parse_edn("[nan -inf 1.5]").unwrap());
    assert_eq!(out.iter().collect::<String>(), "[nil nil 1.5]");
    let mut out: Vec<char> = Vec::new();
    propsim::history::writer::write_json(&mut out, &Value::Float("Infinity".into()));
    assert_eq!(out.iter().collect::<String>(), "nil");
}

#[test]
fn reader_refusals_carry_the_readers_message() {
    assert_eq!(History::from_jepsen("[{\"a\" 1}]").unwrap_err().message(), "expected `:` after JSON key");
    assert_eq!(History::from_jepsen("{:index 0").unwrap_err().message(), "unterminated map");
    assert_eq!(History::from_jepsen("[{\"a\": tru}]").unwrap_err().message(), "invalid JSON literal");
    assert_eq!(History::from_jepsen("{:index 0} x").unwrap_err().message(), "trailing input at byte 11 ");
}

#[test]
fn checked_reading_declines_only_unreadable_text() {
    assert!(History::from_jepsen_checked("[\"\\é\"]").is_none());
    assert!(History::from_jepsen_checked("[{\"a\": \"\\é\"}]").is_none());
    let refused = History::from_jepsen_checked("[1 2").unwrap();
    assert_eq!(refused.unwrap_err().message(), "unterminated list/vector");
    let read = History::from_jepsen_checked("").unwrap().unwrap();
    assert_eq!(read.entries().len(), 0);
}

#[test]
fn float_text_without_a_point_is_written_with_one() {
    let mut out: Vec<char> = Vec::new();
    propsim::history::writer::write_edn(&mut out, &Value::Float("1".into()));
    assert_eq!(out.iter().collect::<String>(), "1.0");
    let mut out: Vec<char> = Vec::new();
    propsim::history::writer::write_json(&mut out, &Value::Float("2.5".into()));
    assert_eq!(out.iter().collect::<String>(), "2.5");
    assert_eq!(parse_edn("1.0").unwrap(), Value::Float("1.0".into()));
}
