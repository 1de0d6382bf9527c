//! Text rendering of structured values: the preview of an item and the log
//! line of each request are serialized here, with item entries sorted by
//! attribute name so log output is stable.

use vstd::prelude::*;

use crate::json::{json_model, json_seq_model, json_entries_model, JsonValue, JsonModel,
    null_chars, true_chars, false_chars, lemma_json_seq_model_len, lemma_json_entries_model_len};
use crate::encode::WriteItem;
use crate::util::{chars_to_string, str_chars, lex_le, lex_lt, lex_less, lemma_lex_total,
    lemma_lex_asym, lemma_lex_le_trans};
use crate::value::{attr_model, attr_entries_model, AttrValue, AttrModel,
    lemma_attr_entries_model_len};
use crate::wire::{wire_of_attr, wire_of_entries, encode_attr_wire, encode_item_wire,
    lemma_wire_of_entries_len};

verus! {

/// A hexadecimal digit character.
pub open spec fn hex_digit(d: int) -> char {
    if d == 0 {
        '0'
    } else if d == 1 {
        '1'
    } else if d == 2 {
        '2'
    } else if d == 3 {
        '3'
    } else if d == 4 {
        '4'
    } else if d == 5 {
        '5'
    } else if d == 6 {
        '6'
    } else if d == 7 {
        '7'
    } else if d == 8 {
        '8'
    } else if d == 9 {
        '9'
    } else if d == 10 {
        'a'
    } else if d == 11 {
        'b'
    } else if d == 12 {
        'c'
    } else if d == 13 {
        'd'
    } else if d == 14 {
        'e'
    } else {
        'f'
    }
}

/// The serialization of one string character: the short escapes, a
/// four-digit escape for other control characters, the character itself
/// otherwise.
pub open spec fn esc_char(c: char) -> Seq<char> {
    if c == '"' {
        seq!['\\', '"']
    } else if c == '\\' {
        seq!['\\', '\\']
    } else if c == '\n' {
        seq!['\\', 'n']
    } else if c == '\r' {
        seq!['\\', 'r']
    } else if c == '\t' {
        seq!['\\', 't']
    } else if c == '\u{8}' {
        seq!['\\', 'b']
    } else if c == '\u{c}' {
        seq!['\\', 'f']
    } else if (c as u32) < 32 {
        seq!['\\', 'u', '0', '0', hex_digit((c as u32 / 16) as int), hex_digit((c as u32 % 16) as int)]
    } else {
        seq![c]
    }
}

/// The serialized interior of a string, from position `i` on.
pub open spec fn str_text_from(t: Seq<char>, i: int) -> Seq<char>
    decreases t.len() - i,
{
    if i < 0 || i >= t.len() {
        Seq::empty()
    } else {
        esc_char(t[i]) + str_text_from(t, i + 1)
    }
}

/// A serialized quoted string.
pub open spec fn quoted_text(t: Seq<char>) -> Seq<char> {
    seq!['"'] + str_text_from(t, 0) + seq!['"']
}

/// The serialized text of a structured value.
pub open spec fn json_text(v: JsonModel) -> Seq<char>
    decreases v, 1int,
{
    match v {
        JsonModel::Null => null_chars(),
        JsonModel::Bool(b) => if b {
            true_chars()
        } else {
            false_chars()
        },
        JsonModel::Num(t) => t,
        JsonModel::Str(t) => quoted_text(t),
        JsonModel::Arr(es) => seq!['['] + arr_text_from(es, 0) + seq![']'],
        JsonModel::Obj(es) => seq!['{'] + obj_text_from(es, 0) + seq!['}'],
    }
}

/// The serialized elements of an array, comma-separated, from `i` on.
pub open spec fn arr_text_from(es: Seq<JsonModel>, i: int) -> Seq<char>
    decreases es, es.len() - i,
{
    if i < 0 || i >= es.len() {
        Seq::empty()
    } else {
        json_text(es[i]) + (if i + 1 < es.len() {
            seq![',']
        } else {
            Seq::empty()
        }) + arr_text_from(es, i + 1)
    }
}

/// The serialized members of an object, comma-separated, from `i` on.
pub open spec fn obj_text_from(es: Seq<(Seq<char>, JsonModel)>, i: int) -> Seq<char>
    decreases es, es.len() - i,
{
    if i < 0 || i >= es.len() {
        Seq::empty()
    } else {
        quoted_text(es[i].0) + seq![':'] + json_text(es[i].1) + (if i + 1 < es.len() {
            seq![',']
        } else {
            Seq::empty()
        }) + obj_text_from(es, i + 1)
    }
}

/// Appends the serialized interior of a string.
fn push_str_text(out: &mut Vec<char>, t: &String)
    ensures
        final(out)@ == old(out)@ + quoted_text(t@),
{
    let cs = str_chars(t.as_str());
    out.push('"');
    let ghost mid = out@;
    let mut i: usize = 0;
    while i < cs.len()
        invariant
            i <= cs@.len(),
            cs@ == t@,
            mid + str_text_from(cs@, 0) == out@ + str_text_from(cs@, i as int),
        decreases cs@.len() - i,
    {
        let c = cs[i];
        if c == '"' {
            out.push('\\');
            out.push('"');
        } else if c == '\\' {
            out.push('\\');
            out.push('\\');
        } else if c == '\n' {
            out.push('\\');
            out.push('n');
        } else if c == '\r' {
            out.push('\\');
            out.push('r');
        } else if c == '\t' {
            out.push('\\');
            out.push('t');
        } else if c == '\u{8}' {
            out.push('\\');
            out.push('b');
        } else if c == '\u{c}' {
            out.push('\\');
            out.push('f');
        } else if (c as u32) < 32 {
            out.push('\\');
            out.push('u');
            out.push('0');
            out.push('0');
            let hi: u32 = (c as u32) / 16;
            let lo: u32 = (c as u32) % 16;
            let hc: char = match hi {
                0 => '0',
                _ => '1',
            };
            let lc: char = match lo {
                0 => '0',
                1 => '1',
                2 => '2',
                3 => '3',
                4 => '4',
                5 => '5',
                6 => '6',
                7 => '7',
                8 => '8',
                9 => '9',
                10 => 'a',
                11 => 'b',
                12 => 'c',
                13 => 'd',
                14 => 'e',
                _ => 'f',
            };
            assert(hi <= 1 && lo <= 15);
            assert(hc == hex_digit((c as u32 / 16) as int));
            assert(lc == hex_digit((c as u32 % 16) as int));
            out.push(hc);
            out.push(lc);
        } else {
            out.push(c);
        }
        assert(mid + str_text_from(cs@, 0) =~= out@ + str_text_from(cs@, i as int + 1));
        i = i + 1;
    }
    assert(out@ =~= mid + str_text_from(cs@, 0));
    out.push('"');
    assert(out@ =~= old(out)@ + quoted_text(t@));
}

/// Appends the serialized text of a structured value.
pub fn push_json_text(out: &mut Vec<char>, v: &JsonValue)
    ensures
        final(out)@ == old(out)@ + json_text(json_model(*v)),
    decreases *v, 1int,
{
    match v {
        JsonValue::Null => {
            out.push('n');
            out.push('u');
            out.push('l');
            out.push('l');
            assert(out@ =~= old(out)@ + null_chars());
        },
        JsonValue::Bool(b) => {
            if *b {
                out.push('t');
                out.push('r');
                out.push('u');
                out.push('e');
                assert(out@ =~= old(out)@ + true_chars());
            } else {
                out.push('f');
                out.push('a');
                out.push('l');
                out.push('s');
                out.push('e');
                assert(out@ =~= old(out)@ + false_chars());
            }
        },
        JsonValue::Num(t) => {
            let cs = str_chars(t.as_str());
            let mut i: usize = 0;
            while i < cs.len()
                invariant
                    i <= cs@.len(),
                    out@ == old(out)@ + cs@.subrange(0, i as int),
                decreases cs@.len() - i,
            {
                out.push(cs[i]);
                assert(out@ =~= old(out)@ + cs@.subrange(0, i as int + 1));
                i = i + 1;
            }
            assert(out@ =~= old(out)@ + cs@);
        },
        JsonValue::Str(t) => {
            push_str_text(out, t);
        },
        JsonValue::Arr(es) => {
            out.push('[');
            push_arr_text(out, es);
            out.push(']');
            assert(out@ =~= old(out)@ + json_text(json_model(*v)));
        },
        JsonValue::Obj(es) => {
            out.push('{');
            push_obj_text(out, es);
            out.push('}');
            assert(out@ =~= old(out)@ + json_text(json_model(*v)));
        },
    }
}

/// Appends the serialized elements of an array.
fn push_arr_text(out: &mut Vec<char>, es: &Vec<JsonValue>)
    ensures
        final(out)@ == old(out)@ + arr_text_from(json_seq_model(es@), 0),
    decreases *es, 0int,
{
    proof {
        lemma_json_seq_model_len(es@);
    }
    let ghost ms = json_seq_model(es@);
    let mut i: usize = 0;
    while i < es.len()
        invariant
            i <= es@.len(),
            ms == json_seq_model(es@),
            ms.len() == es@.len(),
            forall|j: int| 0 <= j < es@.len() ==> ms[j] == json_model(es@[j]),
            old(out)@ + arr_text_from(ms, 0) == out@ + arr_text_from(ms, i as int),
        decreases es@.len() - i,
    {
        push_json_text(out, &es[i]);
        if i + 1 < es.len() {
            out.push(',');
        }
        assert(old(out)@ + arr_text_from(ms, 0) =~= out@ + arr_text_from(ms, i as int + 1));
        i = i + 1;
    }
    assert(out@ =~= old(out)@ + arr_text_from(ms, 0));
}

/// Appends the serialized members of an object.
fn push_obj_text(out: &mut Vec<char>, es: &Vec<(String, JsonValue)>)
    ensures
        final(out)@ == old(out)@ + obj_text_from(json_entries_model(es@), 0),
    decreases *es, 0int,
{
    proof {
        lemma_json_entries_model_len(es@);
    }
    let ghost ms = json_entries_model(es@);
    let mut i: usize = 0;
    while i < es.len()
        invariant
            i <= es@.len(),
            ms == json_entries_model(es@),
            ms.len() == es@.len(),
            forall|j: int| 0 <= j < es@.len() ==> ms[j] == (es@[j].0@, json_model(es@[j].1)),
            old(out)@ + obj_text_from(ms, 0) == out@ + obj_text_from(ms, i as int),
        decreases es@.len() - i,
    {
        push_str_text(out, &es[i].0);
        out.push(':');
        push_json_text(out, &es[i].1);
        if i + 1 < es.len() {
            out.push(',');
        }
        assert(old(out)@ + obj_text_from(ms, 0) =~= out@ + obj_text_from(ms, i as int + 1));
        i = i + 1;
    }
    assert(out@ =~= old(out)@ + obj_text_from(ms, 0));
}

/// Serializes a structured value.
pub fn json_to_text(v: &JsonValue) -> (r: String)
    ensures
        r@ == json_text(json_model(*v)),
{
    let mut out: Vec<char> = Vec::new();
    push_json_text(&mut out, v);
    assert(out@ =~= json_text(json_model(*v)));
    chars_to_string(&out)
}

/// The preview text of one item: the item's wire form as one JSON object.
pub fn render_item(item: &WriteItem) -> (r: String)
    ensures
        r@ == json_text(JsonModel::Obj(wire_of_entries(item@))),
{
    let ws = crate::wire::encode_item_wire(item);
    let mut out: Vec<char> = Vec::new();
    let v = JsonValue::Obj(ws);
    push_json_text(&mut out, &v);
    assert(out@ =~= json_text(json_model(v)));
    chars_to_string(&out)
}


/// Whether attribute names run in non-decreasing order.
pub open spec fn sorted_keys<V>(es: Seq<(Seq<char>, V)>) -> bool {
    forall|i: int, j: int| 0 <= i < j < es.len() ==> lex_le(es[i].0, es[j].0)
}

/// Inserts one named value into a name-sorted sequence, after every member
/// whose name is not greater, so members with equal names keep their order.
pub open spec fn insert_by_key<V>(e: (Seq<char>, V), es: Seq<(Seq<char>, V)>) -> Seq<
    (Seq<char>, V),
>
    decreases es.len(),
{
    if es.len() == 0 {
        seq![e]
    } else if lex_le(es[0].0, e.0) {
        seq![es[0]] + insert_by_key(e, es.drop_first())
    } else {
        seq![e] + es
    }
}

/// The name-sorted permutation of a sequence of named values.
pub open spec fn sort_by_key<V>(es: Seq<(Seq<char>, V)>) -> Seq<(Seq<char>, V)>
    decreases es.len(),
{
    if es.len() == 0 {
        Seq::empty()
    } else {
        insert_by_key(es.last(), sort_by_key(es.drop_last()))
    }
}

/// Prepending one member inserts it into the multiset.
proof fn lemma_prepend_to_multiset<A>(x: A, s: Seq<A>)
    ensures
        (seq![x] + s).to_multiset() == s.to_multiset().insert(x),
    decreases s.len(),
{
    broadcast use vstd::seq_lib::group_to_multiset_ensures;

    if s.len() == 0 {
        assert(seq![x] + s =~= s.push(x));
    } else {
        let s0 = s.drop_last();
        let a = s.last();
        assert(s =~= s0.push(a));
        assert(seq![x] + s =~= (seq![x] + s0).push(a));
        lemma_prepend_to_multiset(x, s0);
        assert(s0.to_multiset().insert(x).insert(a) =~= s0.to_multiset().insert(a).insert(x));
    }
}

/// Insertion adds exactly the new member to the multiset.
proof fn lemma_insert_by_key_multiset<V>(e: (Seq<char>, V), es: Seq<(Seq<char>, V)>)
    ensures
        insert_by_key(e, es).to_multiset() == es.to_multiset().insert(e),
    decreases es.len(),
{
    if es.len() == 0 {
        assert(insert_by_key(e, es) =~= seq![e] + es);
        lemma_prepend_to_multiset(e, es);
    } else if lex_le(es[0].0, e.0) {
        let d = es.drop_first();
        lemma_insert_by_key_multiset(e, d);
        lemma_prepend_to_multiset(es[0], insert_by_key(e, d));
        lemma_prepend_to_multiset(es[0], d);
        assert(es =~= seq![es[0]] + d);
        assert(d.to_multiset().insert(e).insert(es[0]) =~= d.to_multiset().insert(es[0]).insert(
            e,
        ));
    } else {
        lemma_prepend_to_multiset(e, es);
    }
}

/// Sorting permutes: the members are unchanged as a multiset.
pub proof fn lemma_sort_by_key_multiset<V>(es: Seq<(Seq<char>, V)>)
    ensures
        sort_by_key(es).to_multiset() == es.to_multiset(),
    decreases es.len(),
{
    broadcast use vstd::seq_lib::group_to_multiset_ensures;

    if es.len() > 0 {
        let d = es.drop_last();
        lemma_sort_by_key_multiset(d);
        lemma_insert_by_key_multiset(es.last(), sort_by_key(d));
        assert(es =~= d.push(es.last()));
        assert(es.to_multiset() == d.push(es.last()).to_multiset());
    }
}

/// A lower bound on every name survives insertion.
proof fn lemma_insert_by_key_keys<V>(e: (Seq<char>, V), es: Seq<(Seq<char>, V)>, lo: Seq<char>)
    requires
        lex_le(lo, e.0),
        forall|q: int| 0 <= q < es.len() ==> lex_le(lo, (#[trigger] es[q]).0),
    ensures
        forall|j: int|
            0 <= j < insert_by_key(e, es).len() ==> lex_le(lo, (#[trigger] insert_by_key(e, es)[j]).0),
    decreases es.len(),
{
    if es.len() == 0 {
    } else if lex_le(es[0].0, e.0) {
        let d = es.drop_first();
        assert(forall|q: int| 0 <= q < d.len() ==> lex_le(lo, (#[trigger] d[q]).0)) by {
            assert(forall|q: int| 0 <= q < d.len() ==> d[q] == es[q + 1]);
        }
        lemma_insert_by_key_keys(e, d, lo);
        let inner = insert_by_key(e, d);
        assert(forall|j: int|
            0 <= j < insert_by_key(e, es).len() ==> insert_by_key(e, es)[j] == if j == 0 {
                es[0]
            } else {
                inner[j - 1]
            });
    } else {
        assert(forall|j: int|
            0 <= j < insert_by_key(e, es).len() ==> insert_by_key(e, es)[j] == if j == 0 {
                e
            } else {
                es[j - 1]
            });
    }
}

/// Insertion into a name-sorted sequence stays name-sorted.
proof fn lemma_insert_by_key_sorted<V>(e: (Seq<char>, V), es: Seq<(Seq<char>, V)>)
    requires
        sorted_keys(es),
    ensures
        sorted_keys(insert_by_key(e, es)),
    decreases es.len(),
{
    if es.len() == 0 {
    } else if lex_le(es[0].0, e.0) {
        let d = es.drop_first();
        assert(forall|q: int| 0 <= q < d.len() ==> d[q] == es[q + 1]);
        assert(sorted_keys(d));
        lemma_insert_by_key_sorted(e, d);
        assert(forall|q: int| 0 <= q < d.len() ==> lex_le(es[0].0, (#[trigger] d[q]).0));
        lemma_insert_by_key_keys(e, d, es[0].0);
        let inner = insert_by_key(e, d);
        let r = insert_by_key(e, es);
        assert(forall|j: int|
            0 <= j < r.len() ==> r[j] == if j == 0 {
                es[0]
            } else {
                inner[j - 1]
            });
        assert forall|i: int, j: int| 0 <= i < j < r.len() implies lex_le(r[i].0, r[j].0) by {
            if i == 0 {
                assert(lex_le(es[0].0, inner[j - 1].0));
            } else {
                assert(lex_le(inner[i - 1].0, inner[j - 1].0));
            }
        }
    } else {
        assert(lex_lt(e.0, es[0].0)) by {
            lemma_lex_total(es[0].0, e.0);
        }
        let r = insert_by_key(e, es);
        assert(forall|j: int|
            0 <= j < r.len() ==> r[j] == if j == 0 {
                e
            } else {
                es[j - 1]
            });
        assert forall|i: int, j: int| 0 <= i < j < r.len() implies lex_le(r[i].0, r[j].0) by {
            if i == 0 {
                if j == 1 {
                } else {
                    lemma_lex_le_trans(e.0, es[0].0, es[j - 1].0);
                }
            }
        }
    }
}

/// Sorting by name yields non-decreasing names.
pub proof fn lemma_sort_by_key_sorted<V>(es: Seq<(Seq<char>, V)>)
    ensures
        sorted_keys(sort_by_key(es)),
    decreases es.len(),
{
    if es.len() > 0 {
        lemma_sort_by_key_sorted(es.drop_last());
        lemma_insert_by_key_sorted(es.last(), sort_by_key(es.drop_last()));
    }
}

/// Where the scan stopped is where insertion happens.
proof fn lemma_insert_by_key_at<V>(e: (Seq<char>, V), es: Seq<(Seq<char>, V)>, j: int)
    requires
        0 <= j <= es.len(),
        forall|q: int| 0 <= q < j ==> lex_le((#[trigger] es[q]).0, e.0),
        j < es.len() ==> !lex_le(es[j].0, e.0),
    ensures
        insert_by_key(e, es) == es.subrange(0, j) + seq![e] + es.skip(j),
    decreases es.len(),
{
    if j == 0 {
        if es.len() == 0 {
            assert(insert_by_key(e, es) =~= es.subrange(0, 0) + seq![e] + es.skip(0));
        } else {
            assert(!lex_le(es[0].0, e.0));
            assert(insert_by_key(e, es) =~= es.subrange(0, 0) + seq![e] + es.skip(0));
        }
    } else {
        let d = es.drop_first();
        assert(lex_le(es[0].0, e.0));
        assert(forall|q: int| 0 <= q < d.len() ==> d[q] == es[q + 1]);
        lemma_insert_by_key_at(e, d, j - 1);
        assert(d.subrange(0, j - 1) =~= es.subrange(1, j));
        assert(d.skip(j - 1) =~= es.skip(j));
        assert(insert_by_key(e, es) =~= es.subrange(0, j) + seq![e] + es.skip(j));
    }
}

/// Whether one name is at most another; the first is given as a string.
fn name_le(a: &String, b: &Vec<char>) -> (r: bool)
    ensures
        r == lex_le(a@, b@),
{
    let ac = str_chars(a.as_str());
    let lt = lex_less(b, &ac);
    proof {
        lemma_lex_total(a@, b@);
        lemma_lex_asym(b@, a@);
        lemma_lex_asym(a@, a@);
    }
    !lt
}

/// Inserts one wire pair into a name-sorted vector of wire pairs.
fn insert_pair_sorted(out: Vec<(String, JsonValue)>, e: (String, JsonValue)) -> (r: Vec<
    (String, JsonValue),
>)
    ensures
        json_entries_model(r@) == insert_by_key(
            (e.0@, json_model(e.1)),
            json_entries_model(out@),
        ),
{
    proof {
        lemma_json_entries_model_len(out@);
    }
    let ghost ms = json_entries_model(out@);
    let ghost em = (e.0@, json_model(e.1));
    let ek = str_chars(e.0.as_str());
    let mut out = out;
    let mut j: usize = 0;
    while j < out.len() && name_le(&out[j].0, &ek)
        invariant
            j <= out@.len(),
            ek@ == em.0,
            ms == json_entries_model(out@),
            ms.len() == out@.len(),
            forall|q: int| 0 <= q < out@.len() ==> ms[q] == (out@[q].0@, json_model(out@[q].1)),
            forall|q: int| 0 <= q < j ==> lex_le((#[trigger] ms[q]).0, em.0),
        decreases out@.len() - j,
    {
        j = j + 1;
    }
    proof {
        lemma_insert_by_key_at(em, ms, j as int);
    }
    out.insert(j, e);
    proof {
        lemma_json_entries_model_len(out@);
        assert(json_entries_model(out@) =~= ms.subrange(0, j as int) + seq![em] + ms.skip(
            j as int,
        ));
    }
    out
}

/// Sorts wire pairs by attribute name; members with equal names keep their
/// order.
fn sort_pairs_by_key(pairs: Vec<(String, JsonValue)>) -> (r: Vec<(String, JsonValue)>)
    ensures
        json_entries_model(r@) == sort_by_key(json_entries_model(pairs@)),
{
    proof {
        lemma_json_entries_model_len(pairs@);
    }
    let ghost orig = pairs@;
    let ghost ms = json_entries_model(pairs@);
    let mut rest = pairs;
    let mut out: Vec<(String, JsonValue)> = Vec::new();
    proof {
        lemma_json_entries_model_len(out@);
        assert(ms.subrange(0, 0).len() == 0);
        assert(json_entries_model(out@) =~= sort_by_key(ms.subrange(0, 0)));
    }
    let ghost mut i: int = 0;
    while rest.len() > 0
        invariant
            0 <= i <= orig.len(),
            i + rest@.len() == orig.len(),
            rest@ =~= orig.skip(i),
            ms == json_entries_model(orig),
            ms.len() == orig.len(),
            forall|q: int| 0 <= q < orig.len() ==> ms[q] == (orig[q].0@, json_model(orig[q].1)),
            json_entries_model(out@) == sort_by_key(ms.subrange(0, i)),
        decreases rest@.len(),
    {
        let e = rest.remove(0);
        assert(e == orig[i]);
        assert(orig.skip(i).remove(0) =~= orig.skip(i + 1));
        let ghost em = (e.0@, json_model(e.1));
        assert(em == ms[i]);
        out = insert_pair_sorted(out, e);
        proof {
            assert(ms.subrange(0, i + 1).drop_last() =~= ms.subrange(0, i));
            assert(ms.subrange(0, i + 1).last() == ms[i]);
        }
        proof {
            i = i + 1;
        }
    }
    assert(ms.subrange(0, ms.len() as int) =~= ms);
    out
}

/// Member for member, sorting by name commutes with taking wire forms.
proof fn lemma_insert_wire_commute(e: (Seq<char>, AttrModel), es: Seq<(Seq<char>, AttrModel)>)
    ensures
        insert_by_key((e.0, wire_of_attr(e.1)), wire_of_entries(es)) == wire_of_entries(
            insert_by_key(e, es),
        ),
    decreases es.len(),
{
    lemma_wire_of_entries_len(es);
    let ew = (e.0, wire_of_attr(e.1));
    let wes = wire_of_entries(es);
    if es.len() == 0 {
        assert(insert_by_key(ew, wes) =~= seq![ew]);
        let r = insert_by_key(e, es);
        assert(r =~= seq![e]);
        lemma_wire_of_entries_len(r);
        assert(insert_by_key(ew, wes) =~= wire_of_entries(r));
    } else if lex_le(es[0].0, e.0) {
        let d = es.drop_first();
        lemma_insert_wire_commute(e, d);
        lemma_wire_of_entries_len(d);
        assert(wes[0] == (es[0].0, wire_of_attr(es[0].1)));
        assert(wes.drop_first() =~= wire_of_entries(d));
        let r = insert_by_key(e, es);
        assert(r == seq![es[0]] + insert_by_key(e, d));
        lemma_wire_of_entries_len(insert_by_key(e, d));
        lemma_wire_of_entries_len(r);
        assert(forall|q: int|
            0 <= q < insert_by_key(e, d).len() ==> r[q + 1] == insert_by_key(e, d)[q]);
        assert(insert_by_key(ew, wes) =~= wire_of_entries(r));
    } else {
        let r = insert_by_key(e, es);
        assert(r == seq![e] + es);
        lemma_wire_of_entries_len(r);
        assert(forall|q: int| 0 <= q < es.len() ==> r[q + 1] == es[q]);
        assert(insert_by_key(ew, wes) =~= wire_of_entries(r));
    }
}

/// Sorting the wire forms by name is the wire form of the name-sorted
/// members.
proof fn lemma_sort_wire_commute(es: Seq<(Seq<char>, AttrModel)>)
    ensures
        sort_by_key(wire_of_entries(es)) == wire_of_entries(sort_by_key(es)),
    decreases es.len(),
{
    lemma_wire_of_entries_len(es);
    let wes = wire_of_entries(es);
    if es.len() == 0 {
        assert(sort_by_key(wes) =~= wire_of_entries(sort_by_key(es)));
    } else {
        let d = es.drop_last();
        lemma_sort_wire_commute(d);
        lemma_wire_of_entries_len(d);
        assert(wes.drop_last() =~= wire_of_entries(d));
        assert(wes.last() == (es.last().0, wire_of_attr(es.last().1)));
        lemma_insert_wire_commute(es.last(), sort_by_key(d));
    }
}

/// The wire pairs of a logged item: each attribute as a two-element array
/// of its name and its wire form, in the order given.
pub open spec fn pairs_wire(es: Seq<(Seq<char>, AttrModel)>) -> Seq<JsonModel>
    decreases es,
{
    if es.len() == 0 {
        Seq::empty()
    } else {
        seq![JsonModel::Arr(seq![JsonModel::Str(es[0].0), wire_of_attr(es[0].1)])] + pairs_wire(
            es.drop_first(),
        )
    }
}

/// Appending an entry commutes with taking wire pairs.
proof fn lemma_pairs_wire_push(es: Seq<(Seq<char>, AttrModel)>, x: (Seq<char>, AttrModel))
    ensures
        pairs_wire(es.push(x)) == pairs_wire(es).push(
            JsonModel::Arr(seq![JsonModel::Str(x.0), wire_of_attr(x.1)]),
        ),
    decreases es,
{
    if es.len() == 0 {
        reveal_with_fuel(pairs_wire, 3);
        assert(es.push(x)[0] == x);
        assert(es.push(x).drop_first() =~= Seq::<(Seq<char>, AttrModel)>::empty());
        assert(es.push(x).drop_first().len() == 0);
        assert(pairs_wire(es.push(x)) =~= pairs_wire(es).push(
            JsonModel::Arr(seq![JsonModel::Str(x.0), wire_of_attr(x.1)]),
        ));
    } else {
        assert(es.push(x)[0] == es[0]);
        assert(es.push(x).drop_first() =~= es.drop_first().push(x));
        lemma_pairs_wire_push(es.drop_first(), x);
        assert(pairs_wire(es.push(x)) =~= pairs_wire(es).push(
            JsonModel::Arr(seq![JsonModel::Str(x.0), wire_of_attr(x.1)]),
        ));
    }
}

/// The fixed prefix of an accepted batch's log lines.
pub open spec fn success_prefix() -> Seq<char> {
    seq!['S', 'u', 'c', 'c', 'e', 's', 's', ':', ' ']
}

/// The fixed prefix of a rejected batch's log lines.
pub open spec fn failure_prefix() -> Seq<char> {
    seq!['F', 'a', 'i', 'l', 'u', 'r', 'e', ':', ' ']
}

/// One log line for one item: the outcome, then the item's attributes as
/// an array of name/wire-value pairs, sorted ascending by attribute name
/// so log output is stable.
pub fn render_log_line(ok: bool, item: &WriteItem) -> (r: String)
    ensures
        r@ == (if ok {
            success_prefix()
        } else {
            failure_prefix()
        }) + json_text(JsonModel::Arr(pairs_wire(sort_by_key(item@)))),
{
    let mut out: Vec<char> = Vec::new();
    if ok {
        out.push('S');
        out.push('u');
        out.push('c');
        out.push('c');
        out.push('e');
        out.push('s');
        out.push('s');
        out.push(':');
        out.push(' ');
        assert(out@ =~= success_prefix());
    } else {
        out.push('F');
        out.push('a');
        out.push('i');
        out.push('l');
        out.push('u');
        out.push('r');
        out.push('e');
        out.push(':');
        out.push(' ');
        assert(out@ =~= failure_prefix());
    }
    let ws = encode_item_wire(item);
    let sorted = sort_pairs_by_key(ws);
    let ghost mss = sort_by_key(item@);
    proof {
        lemma_sort_wire_commute(item@);
        lemma_wire_of_entries_len(mss);
        lemma_json_entries_model_len(sorted@);
    }
    let ghost wm = wire_of_entries(mss);
    assert(json_entries_model(sorted@) == wm);
    let mut rest = sorted;
    let mut pairs: Vec<JsonValue> = Vec::new();
    proof {
        lemma_json_seq_model_len(pairs@);
        assert(mss.subrange(0, 0) =~= Seq::<(Seq<char>, AttrModel)>::empty());
        assert(json_seq_model(pairs@) =~= pairs_wire(mss.subrange(0, 0)));
        assert(wm.skip(0) =~= wm);
    }
    let ghost mut i: int = 0;
    while rest.len() > 0
        invariant
            0 <= i <= mss.len(),
            i + rest@.len() == mss.len(),
            wm == wire_of_entries(mss),
            wm.len() == mss.len(),
            forall|q: int| 0 <= q < mss.len() ==> wm[q] == (mss[q].0, wire_of_attr(mss[q].1)),
            json_entries_model(rest@) == wm.skip(i),
            json_seq_model(pairs@) == pairs_wire(mss.subrange(0, i)),
        decreases rest@.len(),
    {
        proof {
            lemma_json_entries_model_len(rest@);
        }
        let ghost rest_before = rest@;
        let e = rest.remove(0);
        let ghost em = (e.0@, json_model(e.1));
        proof {
            assert(json_entries_model(rest_before)[0] == em);
            assert(wm.skip(i)[0] == wm[i]);
            assert(em == wm[i]);
            lemma_json_entries_model_len(rest@);
            assert(rest@ =~= rest_before.drop_first());
            assert(forall|q: int|
                0 <= q < rest@.len() ==> json_entries_model(rest@)[q] == json_entries_model(
                    rest_before,
                )[q + 1]);
            assert(json_entries_model(rest@) =~= wm.skip(i + 1));
        }
        let (kt, w) = e;
        let k = JsonValue::Str(kt);
        let mut pair: Vec<JsonValue> = Vec::new();
        let ghost km = json_model(k);
        let ghost wmv = json_model(w);
        pair.push(k);
        pair.push(w);
        let p = JsonValue::Arr(pair);
        proof {
            lemma_json_seq_model_len(pair@);
            assert(json_seq_model(pair@) =~= seq![km, wmv]);
            assert(json_model(p) == JsonModel::Arr(
                seq![JsonModel::Str(mss[i].0), wire_of_attr(mss[i].1)],
            ));
        }
        let ghost before = pairs@;
        pairs.push(p);
        proof {
            lemma_json_seq_model_len(before);
            lemma_json_seq_model_len(pairs@);
            assert(json_seq_model(pairs@) =~= json_seq_model(before).push(json_model(p)));
            lemma_pairs_wire_push(mss.subrange(0, i), mss[i]);
            assert(mss.subrange(0, i).push(mss[i]) =~= mss.subrange(0, i + 1));
        }
        proof {
            i = i + 1;
        }
    }
    assert(mss.subrange(0, mss.len() as int) =~= mss);
    let arr = JsonValue::Arr(pairs);
    push_json_text(&mut out, &arr);
    chars_to_string(&out)
}

} // verus!
