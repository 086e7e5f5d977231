//! Proofs that the EDN rendering of a well-formed value reads back as that
//! value.

use vstd::prelude::*;

use crate::history::edn_spec::{
    edn_items, edn_items_wf, edn_map, edn_pairs, edn_pairs_wf, edn_parse, edn_seq, edn_skip,
    edn_string, edn_text, edn_value, edn_wf, escape, escape_char, is_delim, token_end, PRes,
};
use crate::history::op::VValue;
use crate::text::{all_digits, dec_digits, digit_of, int_text, is_ascii_ws, lemma_dec_digits,
    lemma_int_text_roundtrip};

verus! {

// ---------------------------------------------------------------------------
// Right-to-left views of the list and map renderings
// ---------------------------------------------------------------------------

/// The EDN list items from index `j` on, each preceded by its separator.
pub open spec fn edn_items_from(items: Seq<VValue>, j: int) -> Seq<char>
    decreases items.len() - j,
{
    if j < 0 || j >= items.len() {
        Seq::empty()
    } else {
        (if j > 0 {
            seq![' ']
        } else {
            Seq::empty()
        }) + edn_text(items[j]) + edn_items_from(items, j + 1)
    }
}

/// The EDN map entries from index `j` on, each preceded by its separator.
pub open spec fn edn_pairs_from(pairs: Seq<(VValue, VValue)>, j: int) -> Seq<char>
    decreases pairs.len() - j,
{
    if j < 0 || j >= pairs.len() {
        Seq::empty()
    } else {
        (if j > 0 {
            seq![',', ' ']
        } else {
            Seq::empty()
        }) + edn_text(pairs[j].0) + seq![' '] + edn_text(pairs[j].1) + edn_pairs_from(pairs, j + 1)
    }
}

pub proof fn lemma_items_from(items: Seq<VValue>, j: int)
    requires
        0 <= j <= items.len(),
    ensures
        edn_items(items.take(j)) + edn_items_from(items, j) == edn_items(items),
    decreases items.len() - j,
{
    if j == items.len() {
        assert(items.take(j) =~= items);
        assert(edn_items(items.take(j)) + Seq::<char>::empty() =~= edn_items(items));
    } else {
        lemma_items_from(items, j + 1);
        let t = items.take(j + 1);
        if j == 0 {
            assert(t.len() == 1);
            assert(items.take(0) =~= Seq::<VValue>::empty());
            assert(edn_items(t) == edn_text(items[0]));
            assert(edn_items(items.take(j)) + edn_items_from(items, j) =~= edn_items(t)
                + edn_items_from(items, j + 1));
        } else {
            assert(t.drop_last() =~= items.take(j));
            assert(t.last() == items[j]);
            assert(edn_items(t) == edn_items(items.take(j)) + seq![' '] + edn_text(items[j]));
            assert(edn_items(items.take(j)) + edn_items_from(items, j) =~= edn_items(t)
                + edn_items_from(items, j + 1));
        }
    }
}

pub proof fn lemma_pairs_from(pairs: Seq<(VValue, VValue)>, j: int)
    requires
        0 <= j <= pairs.len(),
    ensures
        edn_pairs(pairs.take(j)) + edn_pairs_from(pairs, j) == edn_pairs(pairs),
    decreases pairs.len() - j,
{
    if j == pairs.len() {
        assert(pairs.take(j) =~= pairs);
        assert(edn_pairs(pairs.take(j)) + Seq::<char>::empty() =~= edn_pairs(pairs));
    } else {
        lemma_pairs_from(pairs, j + 1);
        let t = pairs.take(j + 1);
        if j == 0 {
            assert(t.len() == 1);
            assert(pairs.take(0) =~= Seq::<(VValue, VValue)>::empty());
            assert(edn_pairs(t) == edn_text(pairs[0].0) + seq![' '] + edn_text(pairs[0].1));
            assert(edn_pairs(pairs.take(j)) + edn_pairs_from(pairs, j) =~= edn_pairs(t)
                + edn_pairs_from(pairs, j + 1));
        } else {
            assert(t.drop_last() =~= pairs.take(j));
            assert(t.last() == pairs[j]);
            assert(edn_pairs(t) == edn_pairs(pairs.take(j)) + seq![',', ' '] + edn_text(pairs[j].0)
                + seq![' '] + edn_text(pairs[j].1));
            assert(edn_pairs(pairs.take(j)) + edn_pairs_from(pairs, j) =~= edn_pairs(t)
                + edn_pairs_from(pairs, j + 1));
        }
    }
}

pub proof fn lemma_items_wf(items: Seq<VValue>, k: int)
    requires
        edn_items_wf(items),
        0 <= k < items.len(),
    ensures
        edn_wf(items[k]),
    decreases items.len(),
{
    if k < items.len() - 1 {
        lemma_items_wf(items.drop_last(), k);
        assert(items.drop_last()[k] == items[k]);
    }
}

pub proof fn lemma_pairs_wf(pairs: Seq<(VValue, VValue)>, k: int)
    requires
        edn_pairs_wf(pairs),
        0 <= k < pairs.len(),
    ensures
        edn_wf(pairs[k].0),
        edn_wf(pairs[k].1),
    decreases pairs.len(),
{
    if k < pairs.len() - 1 {
        lemma_pairs_wf(pairs.drop_last(), k);
        assert(pairs.drop_last()[k] == pairs[k]);
    }
}

// ---------------------------------------------------------------------------
// Strings
// ---------------------------------------------------------------------------

pub proof fn lemma_escape_concat(a: Seq<char>, b: Seq<char>)
    ensures
        escape(a + b) == escape(a) + escape(b),
    decreases b.len(),
{
    if b.len() == 0 {
        assert(a + b =~= a);
        assert(escape(a) + escape(b) =~= escape(a));
    } else {
        lemma_escape_concat(a, b.drop_last());
        assert((a + b).drop_last() =~= a + b.drop_last());
        assert((a + b).last() == b.last());
        assert(escape(a + b) =~= escape(a) + escape(b));
    }
}

pub proof fn lemma_escape_cons(t: Seq<char>)
    requires
        t.len() > 0,
    ensures
        escape(t) == escape_char(t[0]) + escape(t.drop_first()),
{
    let h = seq![t[0]];
    assert(t =~= h + t.drop_first());
    lemma_escape_concat(h, t.drop_first());
    assert(h.drop_last() =~= Seq::<char>::empty());
    assert(escape(Seq::<char>::empty()) =~= Seq::<char>::empty());
    assert(escape(h) == escape(h.drop_last()) + escape_char(h.last()));
    assert(escape(h) =~= escape_char(t[0]));
}

/// The body of a quoted string reads back as the string.
pub proof fn lemma_edn_string_rt(s: Seq<char>, p: int, t: Seq<char>, acc: Seq<char>)
    requires
        0 <= p,
        p + escape(t).len() + 1 <= s.len(),
        s.subrange(p, p + escape(t).len() + 1) == escape(t) + seq!['"'],
    ensures
        edn_string(s, p, acc) == PRes::Done(acc + t, p + escape(t).len() + 1),
    decreases t.len(),
{
    if t.len() == 0 {
        assert(escape(t) =~= Seq::<char>::empty());
        assert(s[p] == s.subrange(p, p + 1)[0]);
        assert(acc + t =~= acc);
    } else {
        lemma_escape_cons(t);
        let c = t[0];
        let ec = escape_char(c);
        let rest = t.drop_first();
        let q = p + ec.len();
        assert(escape(t).len() == ec.len() + escape(rest).len());
        assert(s.subrange(q, q + escape(rest).len() + 1) =~= escape(rest) + seq!['"']) by {
            assert forall|i: int| 0 <= i < escape(rest).len() + 1 implies s.subrange(
                q,
                q + escape(rest).len() + 1,
            )[i] == (escape(rest) + seq!['"'])[i] by {
                assert(s.subrange(p, p + escape(t).len() + 1)[ec.len() + i] == s[q + i]);
                assert((escape(t) + seq!['"'])[ec.len() + i] == (escape(rest) + seq!['"'])[i]);
            }
        }
        assert(s[p] == (escape(t) + seq!['"'])[0]);
        assert(s[p] == ec[0]);
        if ec.len() == 2 {
            assert(s[p + 1] == (escape(t) + seq!['"'])[1]);
            assert(s[p + 1] == ec[1]);
        }
        lemma_edn_string_rt(s, q, rest, acc.push(c));
        assert(acc.push(c) + rest =~= acc + t);
    }
}

// ---------------------------------------------------------------------------
// Tokens and whitespace
// ---------------------------------------------------------------------------

/// A run of `n` non-delimiters followed by a delimiter (or the end) is one
/// token.
pub proof fn lemma_token_run(s: Seq<char>, p: int, n: int)
    requires
        0 <= p,
        0 <= n,
        p + n <= s.len(),
        forall|i: int| p <= i < p + n ==> !is_delim(#[trigger] s[i]),
        p + n == s.len() || is_delim(s[p + n]),
    ensures
        token_end(s, p) == p + n,
    decreases n,
{
    if n > 0 {
        lemma_token_run(s, p + 1, n - 1);
    }
}

/// `s` holds `t` at `p`.
pub open spec fn holds_at(s: Seq<char>, p: int, t: Seq<char>) -> bool {
    0 <= p && p + t.len() <= s.len() && s.subrange(p, p + t.len()) == t
}

pub proof fn lemma_holds_at_index(s: Seq<char>, p: int, t: Seq<char>, i: int)
    requires
        holds_at(s, p, t),
        0 <= i < t.len(),
    ensures
        s[p + i] == t[i],
{
    assert(s.subrange(p, p + t.len())[i] == s[p + i]);
}

/// Holding `a + b` at `p` is holding `a` at `p` and `b` right after.
pub proof fn lemma_holds_at_split(s: Seq<char>, p: int, a: Seq<char>, b: Seq<char>)
    requires
        holds_at(s, p, a + b),
    ensures
        holds_at(s, p, a),
        holds_at(s, p + a.len(), b),
{
    assert(s.subrange(p, p + a.len()) =~= s.subrange(p, p + (a + b).len()).subrange(0, a.len() as int));
    assert(s.subrange(p + a.len(), p + a.len() + b.len()) =~= s.subrange(p, p + (a + b).len()).subrange(
        a.len() as int,
        (a + b).len() as int,
    ));
    assert((a + b).subrange(0, a.len() as int) =~= a);
    assert((a + b).subrange(a.len() as int, (a + b).len() as int) =~= b);
}

/// Reading a value skips leading whitespace and commas itself.
pub proof fn lemma_value_skip_one(s: Seq<char>, p: int)
    requires
        0 <= p < s.len(),
        is_ascii_ws(s[p]) || s[p] == ',',
    ensures
        edn_value(s, p) == edn_value(s, p + 1),
{
    crate::history::edn::lemma_skip_bounds(s, p + 1);
}

// ---------------------------------------------------------------------------
// The first character of a rendering
// ---------------------------------------------------------------------------

/// The first character of a value's rendering opens the value: it is never
/// whitespace, a comma, a comment, or a closing bracket.
pub open spec fn opens_value(c: char) -> bool {
    !is_ascii_ws(c) && c != ',' && c != ';' && c != ']' && c != ')' && c != '}'
}

pub proof fn lemma_int_text_chars(i: i64)
    ensures
        int_text(i as int).len() > 0,
        forall|k: int|
            0 <= k < int_text(i as int).len() ==> (#[trigger] int_text(i as int)[k] == '-'
                || ('0' <= int_text(i as int)[k] && int_text(i as int)[k] <= '9')),
        int_text(i as int)[0] == '-' || ('0' <= int_text(i as int)[0] && int_text(i as int)[0]
            <= '9'),
{
    let t = int_text(i as int);
    if i < 0 {
        let d = dec_digits((0 - i) as nat);
        lemma_dec_digits((0 - i) as nat);
        assert forall|k: int| 0 <= k < t.len() implies (#[trigger] t[k] == '-' || ('0' <= t[k]
            && t[k] <= '9')) by {
            if k > 0 {
                assert(t[k] == d[k - 1]);
                assert(0 <= digit_of(d[k - 1]) < 10);
            }
        }
    } else {
        let d = dec_digits(i as nat);
        lemma_dec_digits(i as nat);
        assert forall|k: int| 0 <= k < t.len() implies (#[trigger] t[k] == '-' || ('0' <= t[k]
            && t[k] <= '9')) by {
            assert(0 <= digit_of(d[k]) < 10);
        }
    }
    lemma_int_text_roundtrip(i);
}

pub proof fn lemma_edn_text_opens(v: VValue)
    requires
        edn_wf(v),
    ensures
        edn_text(v).len() > 0,
        opens_value(edn_text(v)[0]),
{
    reveal_strlit("nil");
    reveal_strlit("true");
    reveal_strlit("false");
    match v {
        VValue::Int(i) => {
            lemma_int_text_chars(i);
        },
        VValue::Float(t) => {
            assert(!is_delim(t[0]));
        },
        _ => {},
    }
}

// ---------------------------------------------------------------------------
// The round trip
// ---------------------------------------------------------------------------

/// Whether position `e` of `s` ends a token: the end of input or a delimiter.
pub open spec fn ends_token(s: Seq<char>, e: int) -> bool {
    e == s.len() || (0 <= e < s.len() && is_delim(s[e]))
}

/// An atom's rendering (nil, a boolean, an integer or a float) reads back.
pub proof fn lemma_edn_atom_rt(s: Seq<char>, p: int, v: VValue)
    requires
        edn_wf(v),
        v is Nil || v is Bool || v is Int || v is Float,
        holds_at(s, p, edn_text(v)),
        ends_token(s, p + edn_text(v).len()),
    ensures
        edn_value(s, p) == PRes::Done(v, p + edn_text(v).len()),
{
    let t = edn_text(v);
    lemma_edn_text_opens(v);
    lemma_holds_at_index(s, p, t, 0);
    assert(edn_skip(s, p) == p);
    reveal_strlit("nil");
    reveal_strlit("true");
    reveal_strlit("false");
    match v {
        VValue::Int(i) => {
            lemma_int_text_chars(i);
            lemma_int_text_roundtrip(i);
        },
        _ => {},
    }
    assert forall|k: int| p <= k < p + t.len() implies !is_delim(#[trigger] s[k]) by {
        lemma_holds_at_index(s, p, t, k - p);
        match v {
            VValue::Int(i) => {
                assert(t[k - p] == '-' || ('0' <= t[k - p] && t[k - p] <= '9'));
            },
            _ => {},
        }
    }
    lemma_token_run(s, p, t.len() as int);
    assert(s.subrange(p, p + t.len()) == t);
    match v {
        VValue::Int(i) => {
            assert(t != "nil"@ && t != "true"@ && t != "false"@) by {
                assert("nil"@[0] == 'n');
                assert("true"@[0] == 't');
                assert("false"@[0] == 'f');
            }
        },
        _ => {},
    }
}

/// A string's rendering reads back.
pub proof fn lemma_edn_str_rt(s: Seq<char>, p: int, body: Seq<char>)
    requires
        holds_at(s, p, edn_text(VValue::Str(body))),
    ensures
        edn_value(s, p) == PRes::Done(VValue::Str(body), p + edn_text(VValue::Str(body)).len()),
{
    let t = edn_text(VValue::Str(body));
    assert(t =~= seq!['"'] + (escape(body) + seq!['"']));
    lemma_holds_at_split(s, p, seq!['"'], escape(body) + seq!['"']);
    lemma_holds_at_index(s, p, t, 0);
    assert(edn_skip(s, p) == p);
    lemma_edn_string_rt(s, p + 1, body, Seq::empty());
    assert(Seq::<char>::empty() + body =~= body);
}

/// A keyword's rendering, followed by a delimiter, reads back.
pub proof fn lemma_edn_keyword_rt(s: Seq<char>, p: int, k: Seq<char>)
    requires
        edn_wf(VValue::Keyword(k)),
        holds_at(s, p, edn_text(VValue::Keyword(k))),
        ends_token(s, p + edn_text(VValue::Keyword(k)).len()),
    ensures
        edn_value(s, p) == PRes::Done(VValue::Keyword(k), p + edn_text(VValue::Keyword(k)).len()),
{
    let t = edn_text(VValue::Keyword(k));
    lemma_holds_at_split(s, p, seq![':'], k);
    lemma_holds_at_index(s, p, t, 0);
    assert(edn_skip(s, p) == p);
    assert forall|i: int| p + 1 <= i < p + 1 + k.len() implies !is_delim(#[trigger] s[i]) by {
        lemma_holds_at_index(s, p + 1, k, i - p - 1);
    }
    lemma_token_run(s, p + 1, k.len() as int);
}

/// A well-formed value's EDN rendering, found at `p` and followed by a
/// delimiter or the end, reads back as the value.
pub proof fn lemma_edn_value_rt(s: Seq<char>, p: int, v: VValue)
    requires
        edn_wf(v),
        holds_at(s, p, edn_text(v)),
        ends_token(s, p + edn_text(v).len()),
    ensures
        edn_value(s, p) == PRes::Done(v, p + edn_text(v).len()),
    decreases v, 0int,
{
    match v {
        VValue::Str(body) => {
            lemma_edn_str_rt(s, p, body);
        },
        VValue::Keyword(k) => {
            lemma_edn_keyword_rt(s, p, k);
        },
        VValue::List(items) => {
            let t = edn_text(v);
            lemma_holds_at_index(s, p, t, 0);
            assert(edn_skip(s, p) == p);
            assert(decreases_to!(v => v->List_0));
            lemma_items_from(items, 0);
            assert(items.take(0) =~= Seq::<VValue>::empty());
            assert(edn_items_from(items, 0) == edn_items(items));
            assert(t =~= seq!['['] + (edn_items(items) + seq![']']));
            lemma_holds_at_split(s, p, seq!['['], edn_items(items) + seq![']']);
            lemma_edn_seq_rt(s, p + 1, items, 0);
        },
        VValue::Mapping(pairs) => {
            let t = edn_text(v);
            lemma_holds_at_index(s, p, t, 0);
            assert(edn_skip(s, p) == p);
            assert(decreases_to!(v => v->Mapping_0));
            lemma_pairs_from(pairs, 0);
            assert(pairs.take(0) =~= Seq::<(VValue, VValue)>::empty());
            assert(edn_pairs_from(pairs, 0) == edn_pairs(pairs));
            assert(t =~= seq!['{'] + (edn_pairs(pairs) + seq!['}']));
            lemma_holds_at_split(s, p, seq!['{'], edn_pairs(pairs) + seq!['}']);
            lemma_edn_map_rt(s, p + 1, pairs, 0);
        },
        _ => {
            lemma_edn_atom_rt(s, p, v);
        },
    }
}

/// List items rendered from index `j` on, then `]`, read back as the list.
pub proof fn lemma_edn_seq_rt(s: Seq<char>, p: int, items: Seq<VValue>, j: int)
    requires
        edn_items_wf(items),
        0 <= j <= items.len(),
        holds_at(s, p, edn_items_from(items, j) + seq![']']),
    ensures
        edn_seq(s, p, ']', items.take(j)) == PRes::Done(
            VValue::List(items),
            p + edn_items_from(items, j).len() + 1,
        ),
    decreases items, items.len() - j,
{
    let f = edn_items_from(items, j);
    if j == items.len() {
        assert(f =~= Seq::<char>::empty());
        lemma_holds_at_index(s, p, f + seq![']'], 0);
        assert(items.take(j) =~= items);
    } else {
        let sep: Seq<char> = if j > 0 {
            seq![' ']
        } else {
            Seq::empty()
        };
        let tj = edn_text(items[j]);
        let rest = edn_items_from(items, j + 1);
        assert(f == sep + tj + rest);
        assert(f + seq![']'] =~= sep + (tj + (rest + seq![']'])));
        lemma_holds_at_split(s, p, sep, tj + (rest + seq![']']));
        lemma_holds_at_split(s, p + sep.len(), tj, rest + seq![']']);
        lemma_items_wf(items, j);
        lemma_edn_text_opens(items[j]);
        let q = p + sep.len();
        lemma_holds_at_index(s, q, tj, 0);
        if j > 0 {
            lemma_holds_at_index(s, p, sep, 0);
            assert(edn_skip(s, p) == edn_skip(s, p + 1));
        }
        assert(edn_skip(s, q) == q);
        assert(edn_skip(s, p) == q);
        let r = q + tj.len();
        // what follows the item is a space or the closing bracket
        lemma_holds_at_index(s, r, rest + seq![']'], 0);
        if j + 1 < items.len() {
            assert(rest[0] == ' ');
        } else {
            assert(rest =~= Seq::<char>::empty());
        }
        lemma_edn_value_rt(s, q, items[j]);
        assert(items.take(j).push(items[j]) =~= items.take(j + 1));
        lemma_edn_seq_rt(s, r, items, j + 1);
        assert(r + rest.len() + 1 == p + f.len() + 1);
    }
}

/// Map entries rendered from index `j` on, then `}`, read back as the map.
#[verifier::spinoff_prover]
#[verifier::rlimit(40)]
pub proof fn lemma_edn_map_rt(s: Seq<char>, p: int, pairs: Seq<(VValue, VValue)>, j: int)
    requires
        edn_pairs_wf(pairs),
        0 <= j <= pairs.len(),
        holds_at(s, p, edn_pairs_from(pairs, j) + seq!['}']),
    ensures
        edn_map(s, p, pairs.take(j)) == PRes::Done(
            VValue::Mapping(pairs),
            p + edn_pairs_from(pairs, j).len() + 1,
        ),
    decreases pairs, pairs.len() - j,
{
    let f = edn_pairs_from(pairs, j);
    if j == pairs.len() {
        assert(f =~= Seq::<char>::empty());
        lemma_holds_at_index(s, p, f + seq!['}'], 0);
        assert(pairs.take(j) =~= pairs);
    } else {
        let sep: Seq<char> = if j > 0 {
            seq![',', ' ']
        } else {
            Seq::empty()
        };
        let tk = edn_text(pairs[j].0);
        let tv = edn_text(pairs[j].1);
        let rest = edn_pairs_from(pairs, j + 1);
        assert(f == sep + tk + seq![' '] + tv + rest);
        assert(f + seq!['}'] =~= sep + (tk + (seq![' '] + (tv + (rest + seq!['}'])))));
        lemma_holds_at_split(s, p, sep, tk + (seq![' '] + (tv + (rest + seq!['}']))));
        let q = p + sep.len();
        lemma_holds_at_split(s, q, tk, seq![' '] + (tv + (rest + seq!['}'])));
        let r = q + tk.len();
        lemma_holds_at_split(s, r, seq![' '], tv + (rest + seq!['}']));
        lemma_holds_at_split(s, r + 1, tv, rest + seq!['}']);
        let e = r + 1 + tv.len();
        lemma_pairs_wf(pairs, j);
        lemma_edn_text_opens(pairs[j].0);
        lemma_edn_text_opens(pairs[j].1);
        lemma_holds_at_index(s, q, tk, 0);
        if j > 0 {
            lemma_holds_at_index(s, p, sep, 0);
            lemma_holds_at_index(s, p, sep, 1);
            assert(edn_skip(s, p) == edn_skip(s, p + 1));
            assert(edn_skip(s, p + 1) == edn_skip(s, p + 2));
        }
        assert(edn_skip(s, q) == q);
        assert(edn_skip(s, p) == q);
        // the key is followed by a space
        lemma_holds_at_index(s, r, seq![' '], 0);
        lemma_edn_value_rt(s, q, pairs[j].0);
        // the value is followed by a comma or the closing brace
        lemma_holds_at_index(s, e, rest + seq!['}'], 0);
        if j + 1 < pairs.len() {
            assert(rest[0] == ',');
        } else {
            assert(rest =~= Seq::<char>::empty());
        }
        lemma_edn_value_rt(s, r + 1, pairs[j].1);
        lemma_value_skip_one(s, r);
        assert(pairs.take(j).push((pairs[j].0, pairs[j].1)) =~= pairs.take(j + 1));
        lemma_edn_map_rt(s, e, pairs, j + 1);
        assert(e + rest.len() + 1 == p + f.len() + 1);
    }
}

/// The EDN rendering of a well-formed value parses back to the value.
pub proof fn lemma_edn_roundtrip(v: VValue)
    requires
        edn_wf(v),
    ensures
        edn_parse(edn_text(v)) == PRes::Done(v, edn_text(v).len() as int),
{
    let t = edn_text(v);
    assert(t.subrange(0, t.len() as int) =~= t);
    lemma_edn_value_rt(t, 0, v);
}

} // verus!
