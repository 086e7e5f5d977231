//! The history-level round trips: a history rendered as Jepsen EDN, or as
//! JSON, reads back as the same history.

use vstd::prelude::*;

use crate::history::edn_spec::{
    edn_items, edn_items_wf, edn_keyword_ok, edn_pairs, edn_pairs_wf, edn_parse, edn_text, edn_wf,
    escape, escape_char, find_char, is_delim, json_items_wf, json_pairs_wf, json_parse,
    json_text, json_wf, quoted, PRes,
};
use crate::history::json_roundtrip::{
    lemma_json_items_first, lemma_json_pairs_first, lemma_json_roundtrip,
};
use crate::history::lex::lemma_find_char;
use crate::history::log::{
    as_signed, as_unsigned, clock_from_name, clock_name, entries_of, entry_of, entry_value,
    history_edn, history_json, history_values, kw, lines, lookup, looks_json, read_history,
    read_lines, strip_cr, Ingest,
};
use crate::history::op::{kind_from_keyword, kind_keyword, EntryV, OpKind, VValue};
use crate::history::roundtrip::{lemma_edn_roundtrip, lemma_int_text_chars, lemma_items_wf,
    lemma_pairs_wf};
use crate::history::time::Clock;
use crate::text::{
    int_text, is_unicode_ws, lemma_leading_ws_zero, lemma_trailing_ws_zero, trim,
    trim_start,
};

verus! {

/// Entries whose EDN line reads back: the function name is a keyword name
/// (non-empty, no delimiters) and the value renders to EDN that reads back.
pub open spec fn entry_edn_ok(e: EntryV) -> bool {
    edn_keyword_ok(e.f) && edn_wf(e.value)
}

/// No line feed in `s`.
pub open spec fn no_newline(s: Seq<char>) -> bool {
    forall|i: int| 0 <= i < s.len() ==> #[trigger] s[i] != '\n'
}

proof fn lemma_no_newline_concat(a: Seq<char>, b: Seq<char>)
    requires
        no_newline(a),
        no_newline(b),
    ensures
        no_newline(a + b),
{
    assert forall|i: int| 0 <= i < (a + b).len() implies #[trigger] (a + b)[i] != '\n' by {
        if i < a.len() {
            assert((a + b)[i] == a[i]);
        } else {
            assert((a + b)[i] == b[i - a.len()]);
        }
    }
}

proof fn lemma_escape_no_newline(s: Seq<char>)
    ensures
        no_newline(escape(s)),
    decreases s.len(),
{
    if s.len() > 0 {
        lemma_escape_no_newline(s.drop_last());
        let ec = escape_char(s.last());
        assert(no_newline(ec));
        lemma_no_newline_concat(escape(s.drop_last()), ec);
    }
}

proof fn lemma_no_delim_no_newline(s: Seq<char>)
    requires
        forall|i: int| 0 <= i < s.len() ==> !is_delim(#[trigger] s[i]),
    ensures
        no_newline(s),
{
    assert forall|i: int| 0 <= i < s.len() implies #[trigger] s[i] != '\n' by {
        assert(!is_delim(s[i]));
    }
}

/// The EDN rendering of a well-formed value holds no line feed.
pub proof fn lemma_edn_text_no_newline(v: VValue)
    requires
        edn_wf(v),
    ensures
        no_newline(edn_text(v)),
    decreases v, 0int,
{
    reveal_strlit("nil");
    reveal_strlit("true");
    reveal_strlit("false");
    match v {
        VValue::Int(i) => {
            lemma_int_text_chars(i);
        },
        VValue::Float(t) => {
            lemma_no_delim_no_newline(t);
        },
        VValue::Str(t) => {
            lemma_escape_no_newline(t);
            lemma_no_newline_concat(seq!['"'], escape(t));
            lemma_no_newline_concat(seq!['"'] + escape(t), seq!['"']);
        },
        VValue::Keyword(k) => {
            lemma_no_delim_no_newline(k);
            lemma_no_newline_concat(seq![':'], k);
        },
        VValue::List(items) => {
            assert(decreases_to!(v => v->List_0));
            lemma_items_no_newline(items, items.len() as int);
            assert(items.take(items.len() as int) =~= items);
            lemma_no_newline_concat(seq!['['], edn_items(items));
            lemma_no_newline_concat(seq!['['] + edn_items(items), seq![']']);
        },
        VValue::Mapping(pairs) => {
            assert(decreases_to!(v => v->Mapping_0));
            lemma_pairs_no_newline(pairs, pairs.len() as int);
            assert(pairs.take(pairs.len() as int) =~= pairs);
            lemma_no_newline_concat(seq!['{'], edn_pairs(pairs));
            lemma_no_newline_concat(seq!['{'] + edn_pairs(pairs), seq!['}']);
        },
        _ => {},
    }
}

proof fn lemma_items_no_newline(items: Seq<VValue>, n: int)
    requires
        edn_items_wf(items),
        0 <= n <= items.len(),
    ensures
        no_newline(edn_items(items.take(n))),
    decreases items, n,
{
    let t = items.take(n);
    if n == 1 {
        lemma_items_wf(items, 0);
        assert(t[0] == items[0]);
        lemma_edn_text_no_newline(items[0]);
    } else if n > 1 {
        lemma_items_no_newline(items, n - 1);
        assert(t.drop_last() =~= items.take(n - 1));
        assert(t.last() == items[n - 1]);
        lemma_items_wf(items, n - 1);
        lemma_edn_text_no_newline(items[n - 1]);
        lemma_no_newline_concat(edn_items(items.take(n - 1)), seq![' ']);
        lemma_no_newline_concat(edn_items(items.take(n - 1)) + seq![' '], edn_text(items[n - 1]));
    }
}

proof fn lemma_pairs_no_newline(pairs: Seq<(VValue, VValue)>, n: int)
    requires
        edn_pairs_wf(pairs),
        0 <= n <= pairs.len(),
    ensures
        no_newline(edn_pairs(pairs.take(n))),
    decreases pairs, n,
{
    let t = pairs.take(n);
    if n >= 1 {
        lemma_pairs_wf(pairs, n - 1);
        assert(decreases_to!(pairs => pairs[n - 1]));
        assert(decreases_to!(pairs[n - 1] => pairs[n - 1].0));
        assert(decreases_to!(pairs[n - 1] => pairs[n - 1].1));
        lemma_edn_text_no_newline(pairs[n - 1].0);
        lemma_edn_text_no_newline(pairs[n - 1].1);
        let k = edn_text(pairs[n - 1].0);
        let x = edn_text(pairs[n - 1].1);
        if n == 1 {
            assert(t[0] == pairs[0]);
            lemma_no_newline_concat(k, seq![' ']);
            lemma_no_newline_concat(k + seq![' '], x);
        } else {
            lemma_pairs_no_newline(pairs, n - 1);
            assert(t.drop_last() =~= pairs.take(n - 1));
            assert(t.last() == pairs[n - 1]);
            let head = edn_pairs(pairs.take(n - 1));
            lemma_no_newline_concat(head, seq![',', ' ']);
            lemma_no_newline_concat(head + seq![',', ' '], k);
            lemma_no_newline_concat(head + seq![',', ' '] + k, seq![' ']);
            lemma_no_newline_concat(head + seq![',', ' '] + k + seq![' '], x);
        }
    }
}

/// A keyword name made of letters only reads back.
proof fn lemma_letters_keyword(s: Seq<char>)
    requires
        s.len() > 0,
        forall|i: int| 0 <= i < s.len() ==> 'a' <= #[trigger] s[i] <= 'z',
    ensures
        edn_keyword_ok(s),
{
}

/// The operation map of an entry whose line reads back renders to EDN that
/// reads back.
pub proof fn lemma_entry_value_wf(e: EntryV)
    requires
        entry_edn_ok(e),
    ensures
        edn_wf(entry_value(e)),
{
    reveal_strlit("index");
    reveal_strlit("time");
    reveal_strlit("clock");
    reveal_strlit("type");
    reveal_strlit("process");
    reveal_strlit("f");
    reveal_strlit("value");
    reveal_strlit("virtual");
    reveal_strlit("wall");
    reveal_strlit("invoke");
    reveal_strlit("ok");
    reveal_strlit("fail");
    reveal_strlit("info");
    lemma_letters_keyword("index"@);
    lemma_letters_keyword("time"@);
    lemma_letters_keyword("clock"@);
    lemma_letters_keyword("type"@);
    lemma_letters_keyword("process"@);
    lemma_letters_keyword("f"@);
    lemma_letters_keyword("value"@);
    lemma_letters_keyword(clock_name(e.clock));
    lemma_letters_keyword(kind_keyword(e.kind));
    let ps = entry_value(e)->Mapping_0;
    assert(edn_pairs_wf(ps)) by {
        reveal_with_fuel(edn_pairs_wf, 8);
    }
}

/// The first entry naming `key`, at index `j`, answers a lookup.
proof fn lemma_lookup_at(pairs: Seq<(VValue, VValue)>, key: Seq<char>, j: int)
    requires
        0 <= j < pairs.len(),
        crate::history::log::names_key(pairs[j].0, key),
        forall|m: int| 0 <= m < j ==> !crate::history::log::names_key(#[trigger] pairs[m].0, key),
    ensures
        lookup(pairs, key) == Some(pairs[j].1),
    decreases j,
{
    if j > 0 {
        assert(!crate::history::log::names_key(pairs[0].0, key));
        assert forall|m: int| 0 <= m < j - 1 implies !crate::history::log::names_key(
            #[trigger] pairs.drop_first()[m].0,
            key,
        ) by {
            assert(pairs.drop_first()[m] == pairs[m + 1]);
        }
        lemma_lookup_at(pairs.drop_first(), key, j - 1);
    }
}

/// An entry's operation map reads back as the entry.
pub proof fn lemma_entry_roundtrip(e: EntryV)
    ensures
        entry_of(entry_value(e)) == Some(e),
{
    reveal_strlit("index");
    reveal_strlit("time");
    reveal_strlit("clock");
    reveal_strlit("type");
    reveal_strlit("process");
    reveal_strlit("f");
    reveal_strlit("value");
    reveal_strlit("virtual");
    reveal_strlit("wall");
    reveal_strlit("invoke");
    reveal_strlit("ok");
    reveal_strlit("fail");
    reveal_strlit("info");
    let ps = entry_value(e)->Mapping_0;
    let names = seq!["index"@, "time"@, "clock"@, "type"@, "process"@, "f"@, "value"@];
    assert forall|m: int| 0 <= m < 7 implies ps[m].0 == kw(#[trigger] names[m]) by {}
    // the names differ pairwise
    assert(names[0] != names[1]) by { assert(names[0].len() != names[1].len()); }
    assert(names[0] != names[2]) by { assert(names[0][0] != names[2][0]); }
    assert(names[0] != names[3]) by { assert(names[0].len() != names[3].len()); }
    assert(names[0] != names[4]) by { assert(names[0].len() != names[4].len()); }
    assert(names[0] != names[5]) by { assert(names[0].len() != names[5].len()); }
    assert(names[0] != names[6]) by { assert(names[0][0] != names[6][0]); }
    assert(names[1] != names[2]) by { assert(names[1].len() != names[2].len()); }
    assert(names[1] != names[3]) by { assert(names[1][1] != names[3][1]); }
    assert(names[1] != names[4]) by { assert(names[1].len() != names[4].len()); }
    assert(names[1] != names[5]) by { assert(names[1].len() != names[5].len()); }
    assert(names[1] != names[6]) by { assert(names[1].len() != names[6].len()); }
    assert(names[2] != names[3]) by { assert(names[2].len() != names[3].len()); }
    assert(names[2] != names[4]) by { assert(names[2].len() != names[4].len()); }
    assert(names[2] != names[5]) by { assert(names[2].len() != names[5].len()); }
    assert(names[2] != names[6]) by { assert(names[2][0] != names[6][0]); }
    assert(names[3] != names[4]) by { assert(names[3].len() != names[4].len()); }
    assert(names[3] != names[5]) by { assert(names[3].len() != names[5].len()); }
    assert(names[3] != names[6]) by { assert(names[3].len() != names[6].len()); }
    assert(names[4] != names[5]) by { assert(names[4].len() != names[5].len()); }
    assert(names[4] != names[6]) by { assert(names[4].len() != names[6].len()); }
    assert(names[5] != names[6]) by { assert(names[5].len() != names[6].len()); }
    assert forall|j: int| 0 <= j < 7 implies lookup(ps, #[trigger] names[j]) == Some(ps[j].1) by {
        assert forall|m: int| 0 <= m < j implies !crate::history::log::names_key(
            #[trigger] ps[m].0,
            names[j],
        ) by {
            assert(names[m] != names[j]);
        }
        lemma_lookup_at(ps, names[j], j);
    }
    assert(lookup(ps, names[0]) == Some(ps[0].1));
    assert(lookup(ps, names[1]) == Some(ps[1].1));
    assert(lookup(ps, names[2]) == Some(ps[2].1));
    assert(lookup(ps, names[3]) == Some(ps[3].1));
    assert(lookup(ps, names[4]) == Some(ps[4].1));
    assert(lookup(ps, names[5]) == Some(ps[5].1));
    assert(lookup(ps, names[6]) == Some(ps[6].1));
    assert("wall"@ != "virtual"@) by {
        assert("wall"@.len() != "virtual"@.len());
    }
    assert(clock_from_name(clock_name(e.clock)) == Some(e.clock));
    match e.kind {
        OpKind::Success => {
            assert("ok"@ != "invoke"@) by {
                assert("ok"@.len() != "invoke"@.len());
            }
        },
        OpKind::Fail => {
            assert("fail"@ != "invoke"@) by {
                assert("fail"@.len() != "invoke"@.len());
            }
            assert("fail"@ != "ok"@) by {
                assert("fail"@.len() != "ok"@.len());
            }
        },
        OpKind::Info => {
            assert("info"@ != "invoke"@) by {
                assert("info"@.len() != "invoke"@.len());
            }
            assert("info"@ != "ok"@) by {
                assert("info"@.len() != "ok"@.len());
            }
            assert("info"@ != "fail"@) by {
                assert("info"@[0] != "fail"@[0]);
            }
        },
        _ => {},
    }
    assert(kind_from_keyword(kind_keyword(e.kind)) == Some(e.kind));
    assert(as_unsigned(as_signed(e.index)) == e.index);
    assert(as_unsigned(as_signed(e.process)) == e.process);
}

/// The line of one entry.
pub open spec fn entry_line(e: EntryV) -> Seq<char> {
    edn_text(entry_value(e))
}

/// An entry's line opens with `{`, closes with `}` and holds no line feed.
proof fn lemma_entry_line_shape(e: EntryV)
    requires
        entry_edn_ok(e),
    ensures
        entry_line(e).len() >= 2,
        entry_line(e)[0] == '{',
        entry_line(e).last() == '}',
        no_newline(entry_line(e)),
{
    lemma_entry_value_wf(e);
    lemma_edn_text_no_newline(entry_value(e));
    let ps = entry_value(e)->Mapping_0;
    assert(entry_line(e) == seq!['{'] + edn_pairs(ps) + seq!['}']);
}

/// The rendering splits into one line per entry.
proof fn lemma_history_lines(h: Seq<EntryV>)
    requires
        forall|i: int| 0 <= i < h.len() ==> entry_edn_ok(#[trigger] h[i]),
    ensures
        lines(history_edn(h)) == Seq::new(h.len(), |i: int| entry_line(h[i])),
    decreases h.len(),
{
    if h.len() == 0 {
        assert(lines(history_edn(h)) =~= Seq::new(h.len(), |i: int| entry_line(h[i])));
    } else {
        let t = entry_line(h[0]);
        let rest = history_edn(h.drop_first());
        let s = history_edn(h);
        lemma_entry_line_shape(h[0]);
        assert(s == t + seq!['\n'] + rest);
        assert forall|i: int| 0 <= i < t.len() implies s[i] != '\n' by {
            assert(s[i] == t[i]);
        }
        assert(s[t.len() as int] == '\n');
        lemma_find_char(s, '\n', t.len() as int);
        assert(s.take(t.len() as int) =~= t);
        assert(strip_cr(t) == t);
        assert(s.skip(t.len() + 1int) =~= rest);
        assert forall|i: int| 0 <= i < h.drop_first().len() implies entry_edn_ok(
            #[trigger] h.drop_first()[i],
        ) by {
            assert(h.drop_first()[i] == h[i + 1]);
        }
        lemma_history_lines(h.drop_first());
        assert(lines(s) =~= Seq::new(h.len(), |i: int| entry_line(h[i])));
    }
}

/// The lines of well-formed entries read back as the entries.
proof fn lemma_read_entry_lines(h: Seq<EntryV>)
    requires
        forall|i: int| 0 <= i < h.len() ==> entry_edn_ok(#[trigger] h[i]),
    ensures
        read_lines(Seq::new(h.len(), |i: int| entry_line(h[i]))) == Ingest::Entries(h),
    decreases h.len(),
{
    let ls = Seq::new(h.len(), |i: int| entry_line(h[i]));
    if h.len() == 0 {
        assert(h =~= Seq::<EntryV>::empty());
    } else {
        let e = h[0];
        let t = entry_line(e);
        lemma_entry_line_shape(e);
        lemma_entry_value_wf(e);
        lemma_entry_roundtrip(e);
        lemma_edn_roundtrip(entry_value(e));
        // the line is not blank
        assert(!is_unicode_ws(t[0]));
        lemma_leading_ws_zero(t);
        assert(!is_unicode_ws(t.last()));
        lemma_trailing_ws_zero(t);
        assert(trim(t) == t);
        assert(ls[0] == t);
        assert forall|i: int| 0 <= i < h.drop_first().len() implies entry_edn_ok(
            #[trigger] h.drop_first()[i],
        ) by {
            assert(h.drop_first()[i] == h[i + 1]);
        }
        lemma_read_entry_lines(h.drop_first());
        assert(ls.drop_first() =~= Seq::new(
            h.drop_first().len(),
            |i: int| entry_line(h.drop_first()[i]),
        ));
        assert(seq![e] + h.drop_first() =~= h);
    }
}

/// A history whose entries all have keyword function names and well-formed
/// values reads back from its EDN rendering as itself.
pub proof fn lemma_history_edn_roundtrip(h: Seq<EntryV>)
    requires
        forall|i: int| 0 <= i < h.len() ==> entry_edn_ok(#[trigger] h[i]),
    ensures
        read_history(history_edn(h)) == Ingest::Entries(h),
{
    let s = history_edn(h);
    lemma_history_lines(h);
    lemma_read_entry_lines(h);
    if h.len() == 0 {
        assert(s =~= Seq::<char>::empty());
        lemma_leading_ws_zero(s);
    } else {
        lemma_entry_line_shape(h[0]);
        assert(s[0] == '{');
        lemma_leading_ws_zero(s);
    }
}

// ---------------------------------------------------------------------------
// JSON
// ---------------------------------------------------------------------------

/// The operation map of an entry with a JSON-safe value is JSON-safe.
proof fn lemma_entry_value_json_wf(e: EntryV)
    requires
        json_wf(e.value),
    ensures
        json_wf(entry_value(e)),
{
    let ps = entry_value(e)->Mapping_0;
    assert(json_pairs_wf(ps)) by {
        reveal_with_fuel(json_pairs_wf, 8);
    }
}

/// The operation maps of a history are JSON-safe items, and they read back
/// as the history's entries.
proof fn lemma_history_values(h: Seq<EntryV>)
    requires
        forall|i: int| 0 <= i < h.len() ==> json_wf(#[trigger] h[i].value),
    ensures
        json_items_wf(history_values(h)),
        entries_of(history_values(h)) == Some(h),
    decreases h.len(),
{
    let vs = history_values(h);
    if h.len() > 0 {
        let init = h.drop_last();
        assert forall|i: int| 0 <= i < init.len() implies json_wf(#[trigger] init[i].value) by {
            assert(init[i] == h[i]);
        }
        lemma_history_values(init);
        assert(vs.drop_last() =~= history_values(init));
        lemma_entry_value_json_wf(h.last());
        lemma_entry_roundtrip(h.last());
        assert(init.push(h.last()) =~= h);
    } else {
        assert(vs =~= Seq::<VValue>::empty());
    }
}

/// A history whose entry values all render to JSON that reads back reads
/// back from its JSON rendering as itself.
#[verifier::spinoff_prover]
#[verifier::rlimit(30)]
pub proof fn lemma_history_json_roundtrip(h: Seq<EntryV>)
    requires
        forall|i: int| 0 <= i < h.len() ==> json_wf(#[trigger] h[i].value),
    ensures
        read_history(history_json(h)) == Ingest::Entries(h),
{
    let vs = history_values(h);
    let s = history_json(h);
    lemma_history_values(h);
    lemma_leading_ws_zero(s);
    if h.len() == 0 {
        // `[]` has no object in it: it is read as EDN
        assert(vs =~= Seq::<VValue>::empty());
        let v = VValue::List(vs);
        assert(s =~= seq!['[', ']']);
        assert(edn_text(v) =~= s);
        assert(find_char(s, '{') == 2) by {
            reveal_with_fuel(find_char, 3);
        }
        assert(!looks_json(s));
        lemma_edn_roundtrip(v);
        assert(h =~= Seq::<EntryV>::empty());
    } else {
        let first = json_text(vs[0]);
        let pairs = entry_value(h[0])->Mapping_0;
        lemma_json_items_first(vs);
        lemma_json_pairs_first(pairs);
        assert(first[0] == '{');
        assert(first[1] == '"');
        assert(s[1] == '{');
        assert(s[2] == '"');
        assert(find_char(s, '{') == 1) by {
            reveal_with_fuel(find_char, 2);
        }
        let rest = s.skip(2);
        assert(rest[0] == '"');
        lemma_leading_ws_zero(rest);
        assert(looks_json(s));
        lemma_json_roundtrip(VValue::List(vs));
    }
}

} // verus!
