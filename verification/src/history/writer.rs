//! EDN and JSON emission.

use vstd::prelude::*;

use crate::history::edn_spec::{
    edn_items, edn_pairs, edn_text, escape, escape_char, json_items, json_key, json_pairs,
    json_text, quoted,
};
use crate::history::op::{pairs_view, value_view, values_view, VValue, Value};
use crate::history::edn_spec::float_text;
use crate::history::lex::{is_non_finite, shows_float_in};
use crate::text::{chars_of, int_text, push_int_text, push_str};

verus! {

/// The models of a sequence of values line up with the values.
pub proof fn lemma_values_view(s: Seq<Value>)
    ensures
        values_view(s).len() == s.len(),
        forall|i: int| 0 <= i < s.len() ==> #[trigger] values_view(s)[i] == value_view(s[i]),
    decreases s.len(),
{
    if s.len() > 0 {
        lemma_values_view(s.drop_last());
        assert forall|i: int| 0 <= i < s.len() implies #[trigger] values_view(s)[i] == value_view(
            s[i],
        ) by {
            if i < s.len() - 1 {
                assert(s.drop_last()[i] == s[i]);
            }
        }
    }
}

/// The models of a sequence of pairs line up with the pairs.
pub proof fn lemma_pairs_view(s: Seq<(Value, Value)>)
    ensures
        pairs_view(s).len() == s.len(),
        forall|i: int|
            0 <= i < s.len() ==> #[trigger] pairs_view(s)[i] == (value_view(s[i].0), value_view(
                s[i].1,
            )),
    decreases s.len(),
{
    if s.len() > 0 {
        lemma_pairs_view(s.drop_last());
        assert forall|i: int| 0 <= i < s.len() implies #[trigger] pairs_view(s)[i] == (value_view(
            s[i].0,
        ), value_view(s[i].1)) by {
            if i < s.len() - 1 {
                assert(s.drop_last()[i] == s[i]);
            }
        }
    }
}

/// Append `escape(s)` to `out`.
pub fn push_escaped(out: &mut Vec<char>, s: &str)
    ensures
        final(out)@ == old(out)@ + escape(s@),
{
    let v = chars_of(s);
    let ghost base = out@;
    let mut i: usize = 0;
    assert(v@.take(0) =~= Seq::<char>::empty());
    while i < v.len()
        invariant
            i <= v.len(),
            v@ == s@,
            out@ =~= base + escape(v@.take(i as int)),
        decreases v.len() - i,
    {
        let c = v[i];
        if c == '"' {
            out.push('\\');
            out.push('"');
        } else if c == '\\' {
            out.push('\\');
            out.push('\\');
        } else if c == '\n' {
            out.push('\\');
            out.push('n');
        } else if c == '\r' {
            out.push('\\');
            out.push('r');
        } else if c == '\t' {
            out.push('\\');
            out.push('t');
        } else {
            out.push(c);
        }
        assert(v@.take(i + 1).drop_last() =~= v@.take(i as int));
        assert(escape(v@.take(i + 1)) == escape(v@.take(i as int)) + escape_char(c));
        i = i + 1;
    }
    assert(v@.take(v.len() as int) =~= v@);
}

/// Append `s` in double quotes, escaped.
pub fn write_quoted(out: &mut Vec<char>, s: &str)
    ensures
        final(out)@ == old(out)@ + quoted(s@),
{
    out.push('"');
    push_escaped(out, s);
    out.push('"');
}

/// Append the rendering of float text `t` (see `float_text`).
pub fn push_float(out: &mut Vec<char>, t: &str)
    ensures
        final(out)@ == old(out)@ + float_text(t@),
{
    let cs = chars_of(t);
    if is_non_finite(&cs) {
        push_str(out, "nil");
    } else if shows_float_in(&cs) {
        push_str(out, t);
    } else {
        push_str(out, t);
        push_str(out, ".0");
        assert(old(out)@ + t@ + ".0"@ =~= old(out)@ + (t@ + ".0"@));
    }
}

/// Append the EDN rendering of `v`.
pub fn write_edn(out: &mut Vec<char>, v: &Value)
    ensures
        final(out)@ == old(out)@ + edn_text(value_view(*v)),
    decreases v,
{
    match v {
        Value::Nil => {
            push_str(out, "nil");
        },
        Value::Bool(b) => {
            if *b {
                push_str(out, "true");
            } else {
                push_str(out, "false");
            }
        },
        Value::Int(i) => {
            push_int_text(out, *i);
        },
        Value::Float(t) => {
            push_float(out, t.as_str());
        },
        Value::Str(t) => {
            write_quoted(out, t.as_str());
        },
        Value::Keyword(k) => {
            out.push(':');
            push_str(out, k.as_str());
        },
        Value::List(items) => {
            let ghost base = out@;
            let ghost vs = values_view(items@);
            proof {
                lemma_values_view(items@);
            }
            out.push('[');
            let mut i: usize = 0;
            assert(vs.take(0) =~= Seq::<VValue>::empty());
            while i < items.len()
                invariant
                    i <= items.len(),
                    vs == values_view(items@),
                    *v == Value::List(*items),
                    vs.len() == items@.len(),
                    forall|k: int| 0 <= k < items@.len() ==> #[trigger] vs[k] == value_view(items@[k]),
                    out@ =~= base + seq!['['] + edn_items(vs.take(i as int)),
                decreases items.len() - i,
            {
                if i > 0 {
                    out.push(' ');
                }
                proof {
                    vstd::std_specs::vec::axiom_vec_index_decreases(*items, i as int);
                    assert(decreases_to!(*v => (*v)->List_0));
                }
                write_edn(out, &items[i]);
                assert(vs.take(i + 1).drop_last() =~= vs.take(i as int));
                assert(vs.take(i + 1).last() == vs[i as int]);
                i = i + 1;
            }
            out.push(']');
            assert(vs.take(items.len() as int) =~= vs);
        },
        Value::Mapping(pairs) => {
            let ghost base = out@;
            let ghost ps = pairs_view(pairs@);
            proof {
                lemma_pairs_view(pairs@);
            }
            out.push('{');
            let mut i: usize = 0;
            assert(ps.take(0) =~= Seq::<(VValue, VValue)>::empty());
            while i < pairs.len()
                invariant
                    i <= pairs.len(),
                    ps == pairs_view(pairs@),
                    *v == Value::Mapping(*pairs),
                    ps.len() == pairs@.len(),
                    forall|k: int|
                        0 <= k < pairs@.len() ==> #[trigger] ps[k] == (value_view(pairs@[k].0), value_view(
                            pairs@[k].1,
                        )),
                    out@ =~= base + seq!['{'] + edn_pairs(ps.take(i as int)),
                decreases pairs.len() - i,
            {
                if i > 0 {
                    out.push(',');
                    out.push(' ');
                }
                proof {
                    vstd::std_specs::vec::axiom_vec_index_decreases(*pairs, i as int);
                    assert(decreases_to!(*v => (*v)->Mapping_0));
                    assert(decreases_to!(pairs[i as int] => pairs[i as int].0));
                    assert(decreases_to!(pairs[i as int] => pairs[i as int].1));
                }
                write_edn(out, &pairs[i].0);
                out.push(' ');
                write_edn(out, &pairs[i].1);
                assert(ps.take(i + 1).drop_last() =~= ps.take(i as int));
                assert(ps.take(i + 1).last() == ps[i as int]);
                i = i + 1;
            }
            out.push('}');
            assert(ps.take(pairs.len() as int) =~= ps);
        },
    }
}

/// Append the JSON rendering of `v`. Keywords become strings prefixed with
/// `:`; map keys are written as strings; an infinite or NaN float is
/// written as `nil`, as in EDN.
pub fn write_json(out: &mut Vec<char>, v: &Value)
    ensures
        final(out)@ == old(out)@ + json_text(value_view(*v)),
    decreases v,
{
    match v {
        Value::Nil => {
            push_str(out, "null");
        },
        Value::Bool(b) => {
            if *b {
                push_str(out, "true");
            } else {
                push_str(out, "false");
            }
        },
        Value::Int(i) => {
            push_int_text(out, *i);
        },
        Value::Float(t) => {
            push_float(out, t.as_str());
        },
        Value::Str(t) => {
            write_quoted(out, t.as_str());
        },
        Value::Keyword(k) => {
            out.push('"');
            out.push(':');
            push_escaped(out, k.as_str());
            out.push('"');
        },
        Value::List(items) => {
            let ghost base = out@;
            let ghost vs = values_view(items@);
            proof {
                lemma_values_view(items@);
            }
            out.push('[');
            let mut i: usize = 0;
            assert(vs.take(0) =~= Seq::<VValue>::empty());
            while i < items.len()
                invariant
                    i <= items.len(),
                    vs == values_view(items@),
                    *v == Value::List(*items),
                    vs.len() == items@.len(),
                    forall|k: int| 0 <= k < items@.len() ==> #[trigger] vs[k] == value_view(items@[k]),
                    out@ =~= base + seq!['['] + json_items(vs.take(i as int)),
                decreases items.len() - i,
            {
                if i > 0 {
                    out.push(',');
                }
                proof {
                    vstd::std_specs::vec::axiom_vec_index_decreases(*items, i as int);
                    assert(decreases_to!(*v => (*v)->List_0));
                }
                write_json(out, &items[i]);
                assert(vs.take(i + 1).drop_last() =~= vs.take(i as int));
                assert(vs.take(i + 1).last() == vs[i as int]);
                i = i + 1;
            }
            out.push(']');
            assert(vs.take(items.len() as int) =~= vs);
        },
        Value::Mapping(pairs) => {
            let ghost base = out@;
            let ghost ps = pairs_view(pairs@);
            proof {
                lemma_pairs_view(pairs@);
            }
            out.push('{');
            let mut i: usize = 0;
            assert(ps.take(0) =~= Seq::<(VValue, VValue)>::empty());
            while i < pairs.len()
                invariant
                    i <= pairs.len(),
                    ps == pairs_view(pairs@),
                    *v == Value::Mapping(*pairs),
                    ps.len() == pairs@.len(),
                    forall|k: int|
                        0 <= k < pairs@.len() ==> #[trigger] ps[k] == (value_view(pairs@[k].0), value_view(
                            pairs@[k].1,
                        )),
                    out@ =~= base + seq!['{'] + json_pairs(ps.take(i as int)),
                decreases pairs.len() - i,
            {
                if i > 0 {
                    out.push(',');
                }
                proof {
                    vstd::std_specs::vec::axiom_vec_index_decreases(*pairs, i as int);
                    assert(decreases_to!(*v => (*v)->Mapping_0));
                    assert(decreases_to!(pairs[i as int] => pairs[i as int].1));
                }
                write_json_key(out, &pairs[i].0);
                out.push(':');
                write_json(out, &pairs[i].1);
                assert(ps.take(i + 1).drop_last() =~= ps.take(i as int));
                assert(ps.take(i + 1).last() == ps[i as int]);
                i = i + 1;
            }
            out.push('}');
            assert(ps.take(pairs.len() as int) =~= ps);
        },
    }
}

/// Append a JSON object key: strings as themselves, keywords as `":name"`,
/// integers in quotes, anything else as its quoted EDN rendering.
pub fn write_json_key(out: &mut Vec<char>, k: &Value)
    ensures
        final(out)@ == old(out)@ + json_key(value_view(*k)),
{
    match k {
        Value::Str(s) => {
            write_quoted(out, s.as_str());
        },
        Value::Keyword(kw) => {
            out.push('"');
            out.push(':');
            push_escaped(out, kw.as_str());
            out.push('"');
        },
        Value::Int(i) => {
            out.push('"');
            push_int_text(out, *i);
            out.push('"');
        },
        _ => {
            let mut tmp: Vec<char> = Vec::new();
            write_edn(&mut tmp, k);
            let t = crate::text::string_of(&tmp);
            write_quoted(out, t.as_str());
        },
    }
}

} // verus!
