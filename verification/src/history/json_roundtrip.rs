//! Proofs that the JSON rendering of a well-formed value reads back as that
//! value.

use vstd::prelude::*;

use crate::history::edn_spec::{
    escape, escape_char, is_num_char, json_array, json_float_ok, json_items, json_items_wf,
    json_key, json_key_ok, json_object, json_pairs, json_pairs_wf, json_parse, json_skip,
    json_string, json_text, json_value, json_wf, num_end, quoted, str_value, PRes,
};
use crate::history::op::VValue;
use crate::history::roundtrip::{
    holds_at, lemma_escape_concat, lemma_escape_cons, lemma_holds_at_index, lemma_holds_at_split,
    lemma_int_text_chars,
};
use crate::text::{int_text, is_ascii_ws, lemma_int_text_roundtrip};

verus! {

// ---------------------------------------------------------------------------
// Right-to-left views of the array and object renderings
// ---------------------------------------------------------------------------

/// The JSON array items from index `j` on, each preceded by its separator.
pub open spec fn json_items_from(items: Seq<VValue>, j: int) -> Seq<char>
    decreases items.len() - j,
{
    if j < 0 || j >= items.len() {
        Seq::empty()
    } else {
        (if j > 0 {
            seq![',']
        } else {
            Seq::empty()
        }) + json_text(items[j]) + json_items_from(items, j + 1)
    }
}

/// The JSON object members from index `j` on, each preceded by its
/// separator.
pub open spec fn json_pairs_from(pairs: Seq<(VValue, VValue)>, j: int) -> Seq<char>
    decreases pairs.len() - j,
{
    if j < 0 || j >= pairs.len() {
        Seq::empty()
    } else {
        (if j > 0 {
            seq![',']
        } else {
            Seq::empty()
        }) + json_key(pairs[j].0) + seq![':'] + json_text(pairs[j].1) + json_pairs_from(pairs, j + 1)
    }
}

proof fn lemma_json_items_from(items: Seq<VValue>, j: int)
    requires
        0 <= j <= items.len(),
    ensures
        json_items(items.take(j)) + json_items_from(items, j) == json_items(items),
    decreases items.len() - j,
{
    if j == items.len() {
        assert(items.take(j) =~= items);
        assert(json_items(items.take(j)) + Seq::<char>::empty() =~= json_items(items));
    } else {
        lemma_json_items_from(items, j + 1);
        let t = items.take(j + 1);
        if j == 0 {
            assert(t.len() == 1);
            assert(items.take(0) =~= Seq::<VValue>::empty());
            assert(json_items(t) == json_text(items[0]));
            assert(json_items(items.take(j)) + json_items_from(items, j) =~= json_items(t)
                + json_items_from(items, j + 1));
        } else {
            assert(t.drop_last() =~= items.take(j));
            assert(t.last() == items[j]);
            assert(json_items(t) == json_items(items.take(j)) + seq![','] + json_text(items[j]));
            assert(json_items(items.take(j)) + json_items_from(items, j) =~= json_items(t)
                + json_items_from(items, j + 1));
        }
    }
}

proof fn lemma_json_pairs_from(pairs: Seq<(VValue, VValue)>, j: int)
    requires
        0 <= j <= pairs.len(),
    ensures
        json_pairs(pairs.take(j)) + json_pairs_from(pairs, j) == json_pairs(pairs),
    decreases pairs.len() - j,
{
    if j == pairs.len() {
        assert(pairs.take(j) =~= pairs);
        assert(json_pairs(pairs.take(j)) + Seq::<char>::empty() =~= json_pairs(pairs));
    } else {
        lemma_json_pairs_from(pairs, j + 1);
        let t = pairs.take(j + 1);
        if j == 0 {
            assert(t.len() == 1);
            assert(pairs.take(0) =~= Seq::<(VValue, VValue)>::empty());
            assert(json_pairs(t) == json_key(pairs[0].0) + seq![':'] + json_text(pairs[0].1));
            assert(json_pairs(pairs.take(j)) + json_pairs_from(pairs, j) =~= json_pairs(t)
                + json_pairs_from(pairs, j + 1));
        } else {
            assert(t.drop_last() =~= pairs.take(j));
            assert(t.last() == pairs[j]);
            assert(json_pairs(t) == json_pairs(pairs.take(j)) + seq![','] + json_key(pairs[j].0)
                + seq![':'] + json_text(pairs[j].1));
            assert(json_pairs(pairs.take(j)) + json_pairs_from(pairs, j) =~= json_pairs(t)
                + json_pairs_from(pairs, j + 1));
        }
    }
}

/// A non-empty array rendering starts with its first item.
pub proof fn lemma_json_items_first(items: Seq<VValue>)
    requires
        items.len() > 0,
    ensures
        json_items(items) == json_text(items[0]) + json_items_from(items, 1),
{
    lemma_json_items_from(items, 0);
    assert(items.take(0) =~= Seq::<VValue>::empty());
    assert(json_items_from(items, 0) =~= Seq::<char>::empty() + json_text(items[0])
        + json_items_from(items, 1));
    assert(json_items(items.take(0)) + json_items_from(items, 0) =~= json_items_from(items, 0));
}

/// A non-empty object rendering starts with its first member.
pub proof fn lemma_json_pairs_first(pairs: Seq<(VValue, VValue)>)
    requires
        pairs.len() > 0,
    ensures
        json_pairs(pairs) == json_key(pairs[0].0) + seq![':'] + json_text(pairs[0].1)
            + json_pairs_from(pairs, 1),
{
    lemma_json_pairs_from(pairs, 0);
    assert(pairs.take(0) =~= Seq::<(VValue, VValue)>::empty());
    assert(json_pairs_from(pairs, 0) =~= Seq::<char>::empty() + json_key(pairs[0].0) + seq![':']
        + json_text(pairs[0].1) + json_pairs_from(pairs, 1));
    assert(json_pairs(pairs.take(0)) + json_pairs_from(pairs, 0) =~= json_pairs_from(pairs, 0));
}

proof fn lemma_json_items_wf(items: Seq<VValue>, k: int)
    requires
        json_items_wf(items),
        0 <= k < items.len(),
    ensures
        json_wf(items[k]),
    decreases items.len(),
{
    if k < items.len() - 1 {
        lemma_json_items_wf(items.drop_last(), k);
        assert(items.drop_last()[k] == items[k]);
    }
}

proof fn lemma_json_pairs_wf(pairs: Seq<(VValue, VValue)>, k: int)
    requires
        json_pairs_wf(pairs),
        0 <= k < pairs.len(),
    ensures
        json_key_ok(pairs[k].0),
        json_wf(pairs[k].1),
    decreases pairs.len(),
{
    if k < pairs.len() - 1 {
        lemma_json_pairs_wf(pairs.drop_last(), k);
        assert(pairs.drop_last()[k] == pairs[k]);
    }
}

// ---------------------------------------------------------------------------
// Strings
// ---------------------------------------------------------------------------

/// An escaped body, then a closing quote, reads back as the body.
proof fn lemma_json_string_rt(s: Seq<char>, p: int, t: Seq<char>, acc: Seq<char>)
    requires
        0 <= p,
        holds_at(s, p, escape(t) + seq!['"']),
    ensures
        json_string(s, p, acc) == PRes::Done(acc + t, p + escape(t).len() + 1),
    decreases t.len(),
{
    if t.len() == 0 {
        assert(escape(t) =~= Seq::<char>::empty());
        lemma_holds_at_index(s, p, escape(t) + seq!['"'], 0);
        assert(acc + t =~= acc);
    } else {
        lemma_escape_cons(t);
        let c = t[0];
        let ec = escape_char(c);
        let rest = t.drop_first();
        assert(escape(t) + seq!['"'] =~= ec + (escape(rest) + seq!['"']));
        lemma_holds_at_split(s, p, ec, escape(rest) + seq!['"']);
        lemma_holds_at_index(s, p, ec, 0);
        if ec.len() == 2 {
            lemma_holds_at_index(s, p, ec, 1);
        }
        lemma_json_string_rt(s, p + ec.len(), rest, acc.push(c));
        assert(acc.push(c) + rest =~= acc + t);
    }
}

/// A quoted string at `p` reads back as its body.
proof fn lemma_json_quoted_rt(s: Seq<char>, p: int, t: Seq<char>)
    requires
        holds_at(s, p, quoted(t)),
    ensures
        s[p] == '"',
        json_string(s, p + 1, Seq::empty()) == PRes::Done(t, p + quoted(t).len()),
{
    assert(quoted(t) =~= seq!['"'] + (escape(t) + seq!['"']));
    lemma_holds_at_split(s, p, seq!['"'], escape(t) + seq!['"']);
    lemma_holds_at_index(s, p, seq!['"'], 0);
    lemma_json_string_rt(s, p + 1, t, Seq::empty());
    assert(Seq::<char>::empty() + t =~= t);
}

/// A keyword renders as the quoted string of a colon and its name.
proof fn lemma_keyword_quoted(k: Seq<char>)
    ensures
        seq!['"', ':'] + escape(k) + seq!['"'] == quoted(seq![':'] + k),
        str_value(seq![':'] + k) == VValue::Keyword(k),
{
    lemma_escape_concat(seq![':'], k);
    assert(seq![':'].drop_last() =~= Seq::<char>::empty());
    assert(escape(Seq::<char>::empty()) =~= Seq::<char>::empty());
    assert(escape(seq![':']) =~= seq![':']);
    assert(seq!['"', ':'] + escape(k) + seq!['"'] =~= quoted(seq![':'] + k));
    assert((seq![':'] + k).drop_first() =~= k);
}

// ---------------------------------------------------------------------------
// Numbers and the first character of a rendering
// ---------------------------------------------------------------------------

/// What may follow a JSON value inside an enclosing value or at the end.
pub open spec fn json_ends(s: Seq<char>, e: int) -> bool {
    e == s.len() || (0 <= e < s.len() && (s[e] == ',' || s[e] == ']' || s[e] == '}'))
}

/// A run of `n` number characters followed by a non-number character (or
/// the end) is one number token.
proof fn lemma_num_run(s: Seq<char>, p: int, n: int)
    requires
        0 <= p,
        0 <= n,
        p + n <= s.len(),
        forall|i: int| p <= i < p + n ==> is_num_char(#[trigger] s[i]),
        p + n == s.len() || !is_num_char(s[p + n]),
    ensures
        num_end(s, p) == p + n,
    decreases n,
{
    if n > 0 {
        lemma_num_run(s, p + 1, n - 1);
    }
}

/// The first character of a value's JSON rendering opens it: it is not
/// whitespace, a comma or a closing bracket.
pub open spec fn opens_json(c: char) -> bool {
    !is_ascii_ws(c) && c != ',' && c != ']' && c != '}'
}

proof fn lemma_json_text_opens(v: VValue)
    requires
        json_wf(v),
    ensures
        json_text(v).len() > 0,
        opens_json(json_text(v)[0]),
{
    reveal_strlit("null");
    reveal_strlit("true");
    reveal_strlit("false");
    match v {
        VValue::Int(i) => {
            lemma_int_text_chars(i);
        },
        VValue::Float(t) => {
            assert(is_num_char(t[0]));
        },
        _ => {},
    }
}

// ---------------------------------------------------------------------------
// The round trip
// ---------------------------------------------------------------------------

/// A well-formed value's JSON rendering, found at `p` and followed by a
/// separator, a closing bracket or the end, reads back as the value.
pub proof fn lemma_json_value_rt(s: Seq<char>, p: int, v: VValue)
    requires
        json_wf(v),
        holds_at(s, p, json_text(v)),
        json_ends(s, p + json_text(v).len()),
    ensures
        json_value(s, p) == PRes::Done(v, p + json_text(v).len()),
    decreases v, 0int,
{
    let t = json_text(v);
    lemma_json_text_opens(v);
    lemma_holds_at_index(s, p, t, 0);
    assert(json_skip(s, p) == p);
    reveal_strlit("null");
    reveal_strlit("true");
    reveal_strlit("false");
    match v {
        VValue::Nil => {
            assert(s.subrange(p, p + 4) == "null"@);
        },
        VValue::Bool(b) => {
            if b {
                assert(s.subrange(p, p + 4) == "true"@);
            } else {
                assert(s.subrange(p, p + 5) == "false"@);
                assert(!(s.subrange(p, p + 4) == "true"@)) by {
                    assert(s.subrange(p, p + 4)[0] == 'f');
                }
            }
        },
        VValue::Int(i) => {
            lemma_int_text_chars(i);
            lemma_int_text_roundtrip(i);
            assert forall|k: int| p <= k < p + t.len() implies is_num_char(#[trigger] s[k]) by {
                lemma_holds_at_index(s, p, t, k - p);
            }
            lemma_num_run(s, p, t.len() as int);
            assert(s.subrange(p, p + t.len()) == t);
        },
        VValue::Float(f) => {
            assert forall|k: int| p <= k < p + t.len() implies is_num_char(#[trigger] s[k]) by {
                lemma_holds_at_index(s, p, t, k - p);
            }
            lemma_num_run(s, p, t.len() as int);
            assert(s.subrange(p, p + t.len()) == t);
        },
        VValue::Str(body) => {
            lemma_json_quoted_rt(s, p, body);
        },
        VValue::Keyword(k) => {
            lemma_keyword_quoted(k);
            lemma_json_quoted_rt(s, p, seq![':'] + k);
        },
        VValue::List(items) => {
            assert(decreases_to!(v => v->List_0));
            lemma_json_items_from(items, 0);
            assert(items.take(0) =~= Seq::<VValue>::empty());
            assert(json_items_from(items, 0) == json_items(items));
            assert(t =~= seq!['['] + (json_items(items) + seq![']']));
            lemma_holds_at_split(s, p, seq!['['], json_items(items) + seq![']']);
            lemma_json_array_rt(s, p + 1, items, 0);
        },
        VValue::Mapping(pairs) => {
            assert(decreases_to!(v => v->Mapping_0));
            lemma_json_pairs_from(pairs, 0);
            assert(pairs.take(0) =~= Seq::<(VValue, VValue)>::empty());
            assert(json_pairs_from(pairs, 0) == json_pairs(pairs));
            assert(t =~= seq!['{'] + (json_pairs(pairs) + seq!['}']));
            lemma_holds_at_split(s, p, seq!['{'], json_pairs(pairs) + seq!['}']);
            lemma_json_object_rt(s, p + 1, pairs, 0);
        },
    }
}

/// Array items rendered from index `j` on, then `]`, read back as the array.
proof fn lemma_json_array_rt(s: Seq<char>, p: int, items: Seq<VValue>, j: int)
    requires
        json_items_wf(items),
        0 <= j <= items.len(),
        holds_at(s, p, json_items_from(items, j) + seq![']']),
    ensures
        json_array(s, p, items.take(j)) == PRes::Done(
            VValue::List(items),
            p + json_items_from(items, j).len() + 1,
        ),
    decreases items, items.len() - j,
{
    let f = json_items_from(items, j);
    if j == items.len() {
        assert(f =~= Seq::<char>::empty());
        lemma_holds_at_index(s, p, f + seq![']'], 0);
        assert(items.take(j) =~= items);
    } else {
        let sep: Seq<char> = if j > 0 {
            seq![',']
        } else {
            Seq::empty()
        };
        let tj = json_text(items[j]);
        let rest = json_items_from(items, j + 1);
        assert(f == sep + tj + rest);
        assert(f + seq![']'] =~= sep + (tj + (rest + seq![']'])));
        lemma_holds_at_split(s, p, sep, tj + (rest + seq![']']));
        lemma_holds_at_split(s, p + sep.len(), tj, rest + seq![']']);
        lemma_json_items_wf(items, j);
        lemma_json_text_opens(items[j]);
        let q = p + sep.len();
        lemma_holds_at_index(s, q, tj, 0);
        let r = q + tj.len();
        lemma_holds_at_index(s, r, rest + seq![']'], 0);
        if j + 1 < items.len() {
            assert(rest[0] == ',');
        } else {
            assert(rest =~= Seq::<char>::empty());
        }
        lemma_json_value_rt(s, q, items[j]);
        if j > 0 {
            lemma_holds_at_index(s, p, sep, 0);
            assert(json_skip(s, p) == p);
            assert(s[p] == ',');
            assert(json_skip(s, p + 1) == p + 1);
            assert(json_array(s, p, items.take(j)) == json_array(s, p + 1, items.take(j)));
        }
        assert(json_skip(s, q) == q);
        assert(items.take(j).push(items[j]) =~= items.take(j + 1));
        lemma_json_array_rt(s, r, items, j + 1);
        assert(r + rest.len() + 1 == p + f.len() + 1);
    }
}

/// A member name's rendering at `q` reads back as a string whose value is
/// the name.
proof fn lemma_json_key_rt(s: Seq<char>, q: int, k: VValue) -> (kt: Seq<char>)
    requires
        json_key_ok(k),
        holds_at(s, q, json_key(k)),
    ensures
        s[q] == '"',
        json_string(s, q + 1, Seq::empty()) == PRes::Done(kt, q + json_key(k).len()),
        str_value(kt) == k,
{
    match k {
        VValue::Str(t) => {
            lemma_json_quoted_rt(s, q, t);
            t
        },
        _ => {
            let kw = k->Keyword_0;
            lemma_keyword_quoted(kw);
            lemma_json_quoted_rt(s, q, seq![':'] + kw);
            seq![':'] + kw
        },
    }
}

/// One member step of the object reader: a name string, a colon and a
/// value, with nothing skipped between them.
proof fn lemma_json_object_step(
    s: Seq<char>,
    q: int,
    acc: Seq<(VValue, VValue)>,
    kt: Seq<char>,
    r: int,
    x: VValue,
    e: int,
)
    requires
        0 <= q < r < e <= s.len(),
        json_skip(s, q) == q,
        s[q] == '"',
        json_string(s, q + 1, Seq::empty()) == PRes::Done(kt, r),
        json_skip(s, r) == r,
        s[r] == ':',
        json_value(s, r + 1) == PRes::Done(x, e),
    ensures
        json_object(s, q, acc) == json_object(s, e, acc.push((str_value(kt), x))),
{
}

/// A separating comma before a member is passed over.
proof fn lemma_json_object_comma(s: Seq<char>, p: int, acc: Seq<(VValue, VValue)>)
    requires
        0 <= p < s.len(),
        s[p] == ',',
    ensures
        json_object(s, p, acc) == json_object(s, p + 1, acc),
{
    assert(!is_ascii_ws(','));
    assert(json_skip(s, p) == p);
}

/// Object members rendered from index `j` on, then `}`, read back as the
/// object.
proof fn lemma_json_object_rt(s: Seq<char>, p: int, pairs: Seq<(VValue, VValue)>, j: int)
    requires
        json_pairs_wf(pairs),
        0 <= j <= pairs.len(),
        holds_at(s, p, json_pairs_from(pairs, j) + seq!['}']),
    ensures
        json_object(s, p, pairs.take(j)) == PRes::Done(
            VValue::Mapping(pairs),
            p + json_pairs_from(pairs, j).len() + 1,
        ),
    decreases pairs, pairs.len() - j,
{
    let f = json_pairs_from(pairs, j);
    if j == pairs.len() {
        assert(f =~= Seq::<char>::empty());
        lemma_holds_at_index(s, p, f + seq!['}'], 0);
        assert(pairs.take(j) =~= pairs);
    } else {
        let sep: Seq<char> = if j > 0 {
            seq![',']
        } else {
            Seq::empty()
        };
        let k = pairs[j].0;
        let x = pairs[j].1;
        let tk = json_key(k);
        let tv = json_text(x);
        let rest = json_pairs_from(pairs, j + 1);
        assert(f == sep + tk + seq![':'] + tv + rest);
        assert(f + seq!['}'] =~= sep + (tk + (seq![':'] + (tv + (rest + seq!['}'])))));
        lemma_holds_at_split(s, p, sep, tk + (seq![':'] + (tv + (rest + seq!['}']))));
        let q = p + sep.len();
        lemma_holds_at_split(s, q, tk, seq![':'] + (tv + (rest + seq!['}'])));
        let r = q + tk.len();
        lemma_holds_at_split(s, r, seq![':'], tv + (rest + seq!['}']));
        lemma_holds_at_split(s, r + 1, tv, rest + seq!['}']);
        let e = r + 1 + tv.len();
        lemma_json_pairs_wf(pairs, j);
        lemma_json_text_opens(x);
        lemma_holds_at_index(s, q, tk, 0);
        lemma_holds_at_index(s, r, seq![':'], 0);
        lemma_holds_at_index(s, r + 1, tv, 0);
        let kt = lemma_json_key_rt(s, q, k);
        assert(json_skip(s, r) == r);
        // the value is followed by a comma or the closing brace
        lemma_holds_at_index(s, e, rest + seq!['}'], 0);
        if j + 1 < pairs.len() {
            assert(rest[0] == ',');
        } else {
            assert(rest =~= Seq::<char>::empty());
        }
        lemma_json_value_rt(s, r + 1, x);
        if j > 0 {
            lemma_holds_at_index(s, p, sep, 0);
            lemma_json_object_comma(s, p, pairs.take(j));
        }
        assert(json_skip(s, q) == q);
        lemma_json_object_step(s, q, pairs.take(j), kt, r, x, e);
        assert(pairs.take(j).push((k, x)) =~= pairs.take(j + 1));
        lemma_json_object_rt(s, e, pairs, j + 1);
        assert(e + rest.len() + 1 == p + f.len() + 1);
    }
}

/// The JSON rendering of a well-formed value parses back to the value.
pub proof fn lemma_json_roundtrip(v: VValue)
    requires
        json_wf(v),
    ensures
        json_parse(json_text(v)) == PRes::Done(v, json_text(v).len() as int),
{
    let t = json_text(v);
    assert(t.subrange(0, t.len() as int) =~= t);
    lemma_json_value_rt(t, 0, v);
}

} // verus!
