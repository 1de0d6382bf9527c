//! The wire form of attribute values: the store's JSON encoding, in which
//! every attribute value is an object with exactly one tag populated.
//!
//! `wire_of_attr` gives the structured value that an attribute value
//! serializes to; `attr_of_wire` reads one back. Binary payloads appear as
//! arrays of byte numbers, matching how byte buffers serialize in this
//! wire form. Decoding inverts encoding exactly: see
//! `lemma_wire_round_trip`.

use vstd::prelude::*;

use crate::json::{json_model, json_seq_model, json_entries_model, JsonValue, JsonModel,
    lemma_json_seq_model_len, lemma_json_entries_model_len};
use crate::number::{is_digit, digit_val, digits_val, pow10, lemma_pow10_mono, lemma_digits_val_bound};
use crate::util::{dec_text, digit_char, push_dec_text, chars_to_string, str_chars};
use crate::value::{attr_model, attr_seq_model, attr_entries_model, texts_model, AttrValue,
    AttrModel, lemma_attr_seq_model_len, lemma_attr_entries_model_len};

verus! {

/// The tag of a null attribute.
pub open spec fn tag_null() -> Seq<char> {
    seq!['N', 'U', 'L', 'L']
}

/// The tag of a boolean attribute.
pub open spec fn tag_bool() -> Seq<char> {
    seq!['B', 'O', 'O', 'L']
}

/// The tag of a number attribute.
pub open spec fn tag_n() -> Seq<char> {
    seq!['N']
}

/// The tag of a binary attribute.
pub open spec fn tag_b() -> Seq<char> {
    seq!['B']
}

/// The tag of a string attribute.
pub open spec fn tag_s() -> Seq<char> {
    seq!['S']
}

/// The tag of a list attribute.
pub open spec fn tag_l() -> Seq<char> {
    seq!['L']
}

/// The tag of a map attribute.
pub open spec fn tag_m() -> Seq<char> {
    seq!['M']
}

/// The tag of a string-set attribute.
pub open spec fn tag_ss() -> Seq<char> {
    seq!['S', 'S']
}

/// The tag of a number-set attribute.
pub open spec fn tag_ns() -> Seq<char> {
    seq!['N', 'S']
}

/// One byte on the wire: its decimal text as a number.
pub open spec fn wire_of_bytes(bs: Seq<u8>) -> Seq<JsonModel> {
    bs.map_values(|b: u8| JsonModel::Num(dec_text(b as nat)))
}

/// Set members on the wire: their texts as strings.
pub open spec fn wire_of_texts(ts: Seq<Seq<char>>) -> Seq<JsonModel> {
    ts.map_values(|t: Seq<char>| JsonModel::Str(t))
}

/// The wire form of an attribute value: an object with exactly the one tag
/// of its variant populated.
pub open spec fn wire_of_attr(v: AttrModel) -> JsonModel
    decreases v,
{
    match v {
        AttrModel::Null => JsonModel::Obj(seq![(tag_null(), JsonModel::Bool(true))]),
        AttrModel::Bool(b) => JsonModel::Obj(seq![(tag_bool(), JsonModel::Bool(b))]),
        AttrModel::Number(t) => JsonModel::Obj(seq![(tag_n(), JsonModel::Str(t))]),
        AttrModel::Binary(bs) => JsonModel::Obj(
            seq![(tag_b(), JsonModel::Arr(wire_of_bytes(bs)))],
        ),
        AttrModel::Text(t) => JsonModel::Obj(seq![(tag_s(), JsonModel::Str(t))]),
        AttrModel::List(es) => JsonModel::Obj(seq![(tag_l(), JsonModel::Arr(wire_of_list(es)))]),
        AttrModel::MapVal(es) => JsonModel::Obj(
            seq![(tag_m(), JsonModel::Obj(wire_of_entries(es)))],
        ),
        AttrModel::StrSet(ss) => JsonModel::Obj(
            seq![(tag_ss(), JsonModel::Arr(wire_of_texts(ss)))],
        ),
        AttrModel::NumSet(ns) => JsonModel::Obj(
            seq![(tag_ns(), JsonModel::Arr(wire_of_texts(ns)))],
        ),
    }
}

/// The wire forms of list elements.
pub open spec fn wire_of_list(es: Seq<AttrModel>) -> Seq<JsonModel>
    decreases es,
{
    if es.len() == 0 {
        Seq::empty()
    } else {
        seq![wire_of_attr(es[0])] + wire_of_list(es.drop_first())
    }
}

/// The wire forms of map members.
pub open spec fn wire_of_entries(es: Seq<(Seq<char>, AttrModel)>) -> Seq<(Seq<char>, JsonModel)>
    decreases es,
{
    if es.len() == 0 {
        Seq::empty()
    } else {
        seq![(es[0].0, wire_of_attr(es[0].1))] + wire_of_entries(es.drop_first())
    }
}

/// Shape facts about wire forms of map members.
pub proof fn lemma_wire_of_entries_len(es: Seq<(Seq<char>, AttrModel)>)
    ensures
        wire_of_entries(es).len() == es.len(),
        forall|i: int| 0 <= i < es.len() ==> wire_of_entries(es)[i] == (
            es[i].0,
            wire_of_attr(es[i].1),
        ),
    decreases es,
{
    if es.len() > 0 {
        lemma_wire_of_entries_len(es.drop_first());
    }
}

/// Reads a byte back from its wire text: one to three digits, no leading
/// zero, value at most 255.
pub open spec fn byte_of_text(t: Seq<char>) -> Option<u8> {
    if t.len() >= 1 && (forall|j: int| 0 <= j < t.len() ==> is_digit(t[j])) && (t.len() == 1 || t[0]
        != '0') && digits_val(t) <= 255 {
        Some(digits_val(t) as u8)
    } else {
        None
    }
}

/// Reads the bytes of a binary payload back.
pub open spec fn bytes_of_wire(ws: Seq<JsonModel>) -> Option<Seq<u8>>
    decreases ws,
{
    if ws.len() == 0 {
        Some(Seq::empty())
    } else if ws[0] is Num {
        match byte_of_text(ws[0]->Num_0) {
            Some(b) => match bytes_of_wire(ws.drop_first()) {
                Some(rest) => Some(seq![b] + rest),
                None => None,
            },
            None => None,
        }
    } else {
        None
    }
}

/// Reads set members back: every element must be a string.
pub open spec fn texts_of_wire(ws: Seq<JsonModel>) -> Option<Seq<Seq<char>>>
    decreases ws,
{
    if ws.len() == 0 {
        Some(Seq::empty())
    } else if ws[0] is Str {
        match texts_of_wire(ws.drop_first()) {
            Some(rest) => Some(seq![ws[0]->Str_0] + rest),
            None => None,
        }
    } else {
        None
    }
}

/// Reads an attribute value back from its wire form; `None` when the
/// object is not a single-tag attribute encoding.
pub open spec fn attr_of_wire(v: JsonModel) -> Option<AttrModel>
    decreases v,
{
    match v {
        JsonModel::Obj(es) => if es.len() != 1 {
            None
        } else {
            let k = es[0].0;
            let w = es[0].1;
            if k == tag_null() {
                if w == JsonModel::Bool(true) {
                    Some(AttrModel::Null)
                } else {
                    None
                }
            } else if k == tag_bool() {
                match w {
                    JsonModel::Bool(b) => Some(AttrModel::Bool(b)),
                    _ => None,
                }
            } else if k == tag_n() {
                match w {
                    JsonModel::Str(t) => Some(AttrModel::Number(t)),
                    _ => None,
                }
            } else if k == tag_b() {
                match w {
                    JsonModel::Arr(ws) => match bytes_of_wire(ws) {
                        Some(bs) => Some(AttrModel::Binary(bs)),
                        None => None,
                    },
                    _ => None,
                }
            } else if k == tag_s() {
                match w {
                    JsonModel::Str(t) => Some(AttrModel::Text(t)),
                    _ => None,
                }
            } else if k == tag_l() {
                match w {
                    JsonModel::Arr(ws) => match attrs_of_wire(ws) {
                        Some(es2) => Some(AttrModel::List(es2)),
                        None => None,
                    },
                    _ => None,
                }
            } else if k == tag_m() {
                match w {
                    JsonModel::Obj(ws) => match attr_entries_of_wire(ws) {
                        Some(es2) => Some(AttrModel::MapVal(es2)),
                        None => None,
                    },
                    _ => None,
                }
            } else if k == tag_ss() {
                match w {
                    JsonModel::Arr(ws) => match texts_of_wire(ws) {
                        Some(ts) => Some(AttrModel::StrSet(ts)),
                        None => None,
                    },
                    _ => None,
                }
            } else if k == tag_ns() {
                match w {
                    JsonModel::Arr(ws) => match texts_of_wire(ws) {
                        Some(ts) => Some(AttrModel::NumSet(ts)),
                        None => None,
                    },
                    _ => None,
                }
            } else {
                None
            }
        },
        _ => None,
    }
}

/// Reads list elements back.
pub open spec fn attrs_of_wire(ws: Seq<JsonModel>) -> Option<Seq<AttrModel>>
    decreases ws,
{
    if ws.len() == 0 {
        Some(Seq::empty())
    } else {
        match attr_of_wire(ws[0]) {
            Some(a) => match attrs_of_wire(ws.drop_first()) {
                Some(rest) => Some(seq![a] + rest),
                None => None,
            },
            None => None,
        }
    }
}

/// Reads map members back.
pub open spec fn attr_entries_of_wire(ws: Seq<(Seq<char>, JsonModel)>) -> Option<
    Seq<(Seq<char>, AttrModel)>,
>
    decreases ws,
{
    if ws.len() == 0 {
        Some(Seq::empty())
    } else {
        match attr_of_wire(ws[0].1) {
            Some(a) => match attr_entries_of_wire(ws.drop_first()) {
                Some(rest) => Some(seq![(ws[0].0, a)] + rest),
                None => None,
            },
            None => None,
        }
    }
}

/// The decimal text of a number is made of digits, has no leading zero
/// beyond a lone zero, and reads back to the number itself.
pub proof fn lemma_dec_text_props(n: nat)
    ensures
        dec_text(n).len() >= 1,
        forall|j: int| 0 <= j < dec_text(n).len() ==> is_digit(dec_text(n)[j]),
        digits_val(dec_text(n)) == n,
        n >= 10 ==> dec_text(n)[0] != '0',
        n < 10 ==> dec_text(n).len() == 1,
    decreases n,
{
    if n < 10 {
        let t = dec_text(n);
        assert(t == seq![digit_char(n as int)]);
        assert(t.drop_last() =~= Seq::<char>::empty());
        assert(digits_val(Seq::<char>::empty()) == 0);
        assert(t.last() == digit_char(n as int));
        assert(digits_val(t) == digit_val(digit_char(n as int)));
        assert(digit_val(digit_char(n as int)) == n);
    } else {
        lemma_dec_text_props(n / 10);
        let t = dec_text(n);
        let p = dec_text(n / 10);
        assert(t == p.push(digit_char((n % 10) as int)));
        assert(t.drop_last() =~= p);
        assert(digit_val(digit_char((n % 10) as int)) == n % 10);
        assert(digits_val(t) == digits_val(p) * 10 + n % 10);
        assert(t[0] == p[0]);
        if n / 10 >= 10 {
            assert(p[0] != '0');
        } else {
            assert(1 <= n / 10 < 10);
            assert(p.len() == 1);
            assert(digit_val(p[0]) == n / 10);
            assert(p[0] != '0');
        }
    }
}

/// A digit string without a leading zero is at least the power of ten of
/// its length.
proof fn lemma_digits_val_lower(t: Seq<char>)
    requires
        t.len() >= 1,
        forall|j: int| 0 <= j < t.len() ==> is_digit(t[j]),
        t[0] != '0',
    ensures
        digits_val(t) >= pow10((t.len() - 1) as nat),
    decreases t.len(),
{
    if t.len() == 1 {
        assert(t.drop_last() =~= Seq::<char>::empty());
        assert(digits_val(Seq::<char>::empty()) == 0);
        assert(t.last() == t[0]);
        assert(digits_val(t) == digit_val(t[0]));
        assert(digit_val(t[0]) >= 1);
        assert(pow10(0) == 1);
    } else {
        assert(t.drop_last()[0] == t[0]);
        lemma_digits_val_lower(t.drop_last());
        assert(digit_val(t.last()) >= 0);
        assert(pow10((t.len() - 1) as nat) == 10 * pow10((t.len() - 2) as nat));
    }
}

/// A byte's wire text reads back to the byte.
proof fn lemma_byte_round_trip(b: u8)
    ensures
        byte_of_text(dec_text(b as nat)) == Some(b),
{
    lemma_dec_text_props(b as nat);
}

/// The nine wire tags are pairwise distinct.
proof fn lemma_tags_distinct()
    ensures
        tag_bool() != tag_null(),
        tag_n() != tag_null() && tag_n() != tag_bool(),
        tag_b() != tag_null() && tag_b() != tag_bool() && tag_b() != tag_n(),
        tag_s() != tag_null() && tag_s() != tag_bool() && tag_s() != tag_n() && tag_s() != tag_b(),
        tag_l() != tag_null() && tag_l() != tag_bool() && tag_l() != tag_n() && tag_l() != tag_b()
            && tag_l() != tag_s(),
        tag_m() != tag_null() && tag_m() != tag_bool() && tag_m() != tag_n() && tag_m() != tag_b()
            && tag_m() != tag_s() && tag_m() != tag_l(),
        tag_ss() != tag_null() && tag_ss() != tag_bool() && tag_ss() != tag_n() && tag_ss()
            != tag_b() && tag_ss() != tag_s() && tag_ss() != tag_l() && tag_ss() != tag_m(),
        tag_ns() != tag_null() && tag_ns() != tag_bool() && tag_ns() != tag_n() && tag_ns()
            != tag_b() && tag_ns() != tag_s() && tag_ns() != tag_l() && tag_ns() != tag_m()
            && tag_ns() != tag_ss(),
{
    assert(tag_n() != tag_null()) by {
        if tag_n() == tag_null() {
            assert(tag_n().len() == tag_null().len());
        }
    }
    assert(tag_n() != tag_bool()) by {
        if tag_n() == tag_bool() {
            assert(tag_n().len() == tag_bool().len());
        }
    }
    assert(tag_b() != tag_null()) by {
        if tag_b() == tag_null() {
            assert(tag_b().len() == tag_null().len());
        }
    }
    assert(tag_b() != tag_bool()) by {
        if tag_b() == tag_bool() {
            assert(tag_b().len() == tag_bool().len());
        }
    }
    assert(tag_s() != tag_null()) by {
        if tag_s() == tag_null() {
            assert(tag_s().len() == tag_null().len());
        }
    }
    assert(tag_s() != tag_bool()) by {
        if tag_s() == tag_bool() {
            assert(tag_s().len() == tag_bool().len());
        }
    }
    assert(tag_l() != tag_null()) by {
        if tag_l() == tag_null() {
            assert(tag_l().len() == tag_null().len());
        }
    }
    assert(tag_l() != tag_bool()) by {
        if tag_l() == tag_bool() {
            assert(tag_l().len() == tag_bool().len());
        }
    }
    assert(tag_m() != tag_null()) by {
        if tag_m() == tag_null() {
            assert(tag_m().len() == tag_null().len());
        }
    }
    assert(tag_m() != tag_bool()) by {
        if tag_m() == tag_bool() {
            assert(tag_m().len() == tag_bool().len());
        }
    }
    assert(tag_ss() != tag_null()) by {
        if tag_ss() == tag_null() {
            assert(tag_ss().len() == tag_null().len());
        }
    }
    assert(tag_ss() != tag_bool()) by {
        if tag_ss() == tag_bool() {
            assert(tag_ss().len() == tag_bool().len());
        }
    }
    assert(tag_ss() != tag_n()) by {
        if tag_ss() == tag_n() {
            assert(tag_ss().len() == tag_n().len());
        }
    }
    assert(tag_ss() != tag_b()) by {
        if tag_ss() == tag_b() {
            assert(tag_ss().len() == tag_b().len());
        }
    }
    assert(tag_ss() != tag_s()) by {
        if tag_ss() == tag_s() {
            assert(tag_ss().len() == tag_s().len());
        }
    }
    assert(tag_ss() != tag_l()) by {
        if tag_ss() == tag_l() {
            assert(tag_ss().len() == tag_l().len());
        }
    }
    assert(tag_ss() != tag_m()) by {
        if tag_ss() == tag_m() {
            assert(tag_ss().len() == tag_m().len());
        }
    }
    assert(tag_ns() != tag_null()) by {
        if tag_ns() == tag_null() {
            assert(tag_ns().len() == tag_null().len());
        }
    }
    assert(tag_ns() != tag_bool()) by {
        if tag_ns() == tag_bool() {
            assert(tag_ns().len() == tag_bool().len());
        }
    }
    assert(tag_ns() != tag_n()) by {
        if tag_ns() == tag_n() {
            assert(tag_ns().len() == tag_n().len());
        }
    }
    assert(tag_ns() != tag_b()) by {
        if tag_ns() == tag_b() {
            assert(tag_ns().len() == tag_b().len());
        }
    }
    assert(tag_ns() != tag_s()) by {
        if tag_ns() == tag_s() {
            assert(tag_ns().len() == tag_s().len());
        }
    }
    assert(tag_ns() != tag_l()) by {
        if tag_ns() == tag_l() {
            assert(tag_ns().len() == tag_l().len());
        }
    }
    assert(tag_ns() != tag_m()) by {
        if tag_ns() == tag_m() {
            assert(tag_ns().len() == tag_m().len());
        }
    }
    assert(tag_bool() != tag_null()) by {
        if tag_bool() == tag_null() {
            assert(tag_bool()[0] == tag_null()[0]);
        }
    }
    assert(tag_b() != tag_n()) by {
        if tag_b() == tag_n() {
            assert(tag_b()[0] == tag_n()[0]);
        }
    }
    assert(tag_s() != tag_n()) by {
        if tag_s() == tag_n() {
            assert(tag_s()[0] == tag_n()[0]);
        }
    }
    assert(tag_s() != tag_b()) by {
        if tag_s() == tag_b() {
            assert(tag_s()[0] == tag_b()[0]);
        }
    }
    assert(tag_l() != tag_n()) by {
        if tag_l() == tag_n() {
            assert(tag_l()[0] == tag_n()[0]);
        }
    }
    assert(tag_l() != tag_b()) by {
        if tag_l() == tag_b() {
            assert(tag_l()[0] == tag_b()[0]);
        }
    }
    assert(tag_l() != tag_s()) by {
        if tag_l() == tag_s() {
            assert(tag_l()[0] == tag_s()[0]);
        }
    }
    assert(tag_m() != tag_n()) by {
        if tag_m() == tag_n() {
            assert(tag_m()[0] == tag_n()[0]);
        }
    }
    assert(tag_m() != tag_b()) by {
        if tag_m() == tag_b() {
            assert(tag_m()[0] == tag_b()[0]);
        }
    }
    assert(tag_m() != tag_s()) by {
        if tag_m() == tag_s() {
            assert(tag_m()[0] == tag_s()[0]);
        }
    }
    assert(tag_m() != tag_l()) by {
        if tag_m() == tag_l() {
            assert(tag_m()[0] == tag_l()[0]);
        }
    }
    assert(tag_ns() != tag_ss()) by {
        if tag_ns() == tag_ss() {
            assert(tag_ns()[0] == tag_ss()[0]);
        }
    }
}

/// Decoding inverts encoding for every attribute value: reading the wire
/// form of any value yields exactly that value, for scalars, nested lists,
/// nested maps, sets and binary payloads alike.
pub proof fn lemma_wire_round_trip(x: AttrModel)
    ensures
        attr_of_wire(wire_of_attr(x)) == Some(x),
    decreases x,
{
    lemma_tags_distinct();
    match x {
        AttrModel::Null => {},
        AttrModel::Bool(b) => {},
        AttrModel::Number(t) => {},
        AttrModel::Binary(bs) => {
            lemma_bytes_round_trip(bs);
        },
        AttrModel::Text(t) => {},
        AttrModel::List(es) => {
            lemma_list_round_trip(es);
        },
        AttrModel::MapVal(es) => {
            lemma_entries_round_trip(es);
        },
        AttrModel::StrSet(ss) => {
            lemma_texts_round_trip(ss);
        },
        AttrModel::NumSet(ns) => {
            lemma_texts_round_trip(ns);
        },
    }
}

/// Byte payloads read back unchanged.
proof fn lemma_bytes_round_trip(bs: Seq<u8>)
    ensures
        bytes_of_wire(wire_of_bytes(bs)) == Some(bs),
    decreases bs.len(),
{
    let ws = wire_of_bytes(bs);
    if bs.len() == 0 {
        assert(ws.len() == 0);
        assert(bytes_of_wire(ws) == Some(Seq::<u8>::empty()));
        assert(bs =~= Seq::<u8>::empty());
    } else {
        assert(ws[0] == JsonModel::Num(dec_text(bs[0] as nat)));
        lemma_byte_round_trip(bs[0]);
        assert(ws.drop_first() =~= wire_of_bytes(bs.drop_first()));
        lemma_bytes_round_trip(bs.drop_first());
        assert(seq![bs[0]] + bs.drop_first() =~= bs);
    }
}

/// Set members read back unchanged.
proof fn lemma_texts_round_trip(ts: Seq<Seq<char>>)
    ensures
        texts_of_wire(wire_of_texts(ts)) == Some(ts),
    decreases ts.len(),
{
    let ws = wire_of_texts(ts);
    if ts.len() == 0 {
        assert(ws.len() == 0);
        assert(ts =~= Seq::<Seq<char>>::empty());
    } else {
        assert(ws[0] == JsonModel::Str(ts[0]));
        assert(ws.drop_first() =~= wire_of_texts(ts.drop_first()));
        lemma_texts_round_trip(ts.drop_first());
        assert(seq![ts[0]] + ts.drop_first() =~= ts);
    }
}

/// List elements read back unchanged.
proof fn lemma_list_round_trip(es: Seq<AttrModel>)
    ensures
        attrs_of_wire(wire_of_list(es)) == Some(es),
    decreases es,
{
    let ws = wire_of_list(es);
    if es.len() == 0 {
        assert(es =~= Seq::<AttrModel>::empty());
    } else {
        assert(ws[0] == wire_of_attr(es[0]));
        lemma_wire_round_trip(es[0]);
        assert(ws.drop_first() =~= wire_of_list(es.drop_first()));
        lemma_list_round_trip(es.drop_first());
        assert(seq![es[0]] + es.drop_first() =~= es);
    }
}

/// Map members read back unchanged.
proof fn lemma_entries_round_trip(es: Seq<(Seq<char>, AttrModel)>)
    ensures
        attr_entries_of_wire(wire_of_entries(es)) == Some(es),
    decreases es,
{
    let ws = wire_of_entries(es);
    if es.len() == 0 {
        assert(es =~= Seq::<(Seq<char>, AttrModel)>::empty());
    } else {
        assert(ws[0] == (es[0].0, wire_of_attr(es[0].1)));
        lemma_wire_round_trip(es[0].1);
        assert(ws.drop_first() =~= wire_of_entries(es.drop_first()));
        lemma_entries_round_trip(es.drop_first());
        assert(seq![es[0]] + es.drop_first() =~= es);
    }
}

/// Appending an element commutes with taking wire forms of a list.
proof fn lemma_wire_of_list_push(es: Seq<AttrModel>, x: AttrModel)
    ensures
        wire_of_list(es.push(x)) == wire_of_list(es).push(wire_of_attr(x)),
    decreases es,
{
    if es.len() == 0 {
        reveal_with_fuel(wire_of_list, 3);
        assert(es.push(x)[0] == x);
        assert(es.push(x).drop_first() =~= Seq::<AttrModel>::empty());
        assert(es.push(x).drop_first().len() == 0);
        assert(wire_of_list(es.push(x)) =~= wire_of_list(es).push(wire_of_attr(x)));
    } else {
        assert(es.push(x)[0] == es[0]);
        assert(es.push(x).drop_first() =~= es.drop_first().push(x));
        lemma_wire_of_list_push(es.drop_first(), x);
        assert(wire_of_list(es.push(x)) =~= wire_of_list(es).push(wire_of_attr(x)));
    }
}

/// Appending a member commutes with taking wire forms of map members.
proof fn lemma_wire_of_entries_push(es: Seq<(Seq<char>, AttrModel)>, x: (Seq<char>, AttrModel))
    ensures
        wire_of_entries(es.push(x)) == wire_of_entries(es).push((x.0, wire_of_attr(x.1))),
    decreases es,
{
    if es.len() == 0 {
        reveal_with_fuel(wire_of_entries, 3);
        assert(es.push(x)[0] == x);
        assert(es.push(x).drop_first() =~= Seq::<(Seq<char>, AttrModel)>::empty());
        assert(es.push(x).drop_first().len() == 0);
        assert(wire_of_entries(es.push(x)) =~= wire_of_entries(es).push((x.0, wire_of_attr(x.1))));
    } else {
        assert(es.push(x)[0] == es[0]);
        assert(es.push(x).drop_first() =~= es.drop_first().push(x));
        lemma_wire_of_entries_push(es.drop_first(), x);
        assert(wire_of_entries(es.push(x)) =~= wire_of_entries(es).push((x.0, wire_of_attr(x.1))));
    }
}

/// Wraps one tagged payload as an attribute object.
fn obj1(k: String, w: JsonValue) -> (r: JsonValue)
    ensures
        json_model(r) == JsonModel::Obj(seq![(k@, json_model(w))]),
{
    let ghost kv = k@;
    let ghost wm = json_model(w);
    let mut es: Vec<(String, JsonValue)> = Vec::new();
    es.push((k, w));
    proof {
        lemma_json_entries_model_len(es@);
        assert(json_entries_model(es@) =~= seq![(kv, wm)]);
    }
    JsonValue::Obj(es)
}

/// Writes an attribute value in its wire form.
pub fn encode_attr_wire(v: &AttrValue) -> (r: JsonValue)
    ensures
        json_model(r) == wire_of_attr(attr_model(*v)),
    decreases *v, 1int,
{
    match v {
        AttrValue::Null => {
            let k = String::from_str("NULL");
            proof {
                reveal_strlit("NULL");
                assert(k@ =~= tag_null());
            }
            obj1(k, JsonValue::Bool(true))
        },
        AttrValue::Bool(b) => {
            let k = String::from_str("BOOL");
            proof {
                reveal_strlit("BOOL");
                assert(k@ =~= tag_bool());
            }
            obj1(k, JsonValue::Bool(*b))
        },
        AttrValue::Number(t) => {
            let k = String::from_str("N");
            proof {
                reveal_strlit("N");
                assert(k@ =~= tag_n());
            }
            obj1(k, JsonValue::Str(t.clone()))
        },
        AttrValue::Binary(bs) => {
            let k = String::from_str("B");
            proof {
                reveal_strlit("B");
                assert(k@ =~= tag_b());
            }
            let mut ws: Vec<JsonValue> = Vec::new();
            proof {
                lemma_json_seq_model_len(ws@);
                assert(json_seq_model(ws@) =~= wire_of_bytes(bs@.subrange(0, 0)));
            }
            let mut i: usize = 0;
            while i < bs.len()
                invariant
                    i <= bs@.len(),
                    json_seq_model(ws@) == wire_of_bytes(bs@.subrange(0, i as int)),
                decreases bs@.len() - i,
            {
                let mut cs: Vec<char> = Vec::new();
                push_dec_text(&mut cs, bs[i] as u64);
                let t = chars_to_string(&cs);
                let ghost before = ws@;
                let e = JsonValue::Num(t);
                ws.push(e);
                proof {
                    lemma_json_seq_model_len(before);
                    lemma_json_seq_model_len(ws@);
                    assert(json_seq_model(ws@) =~= json_seq_model(before).push(json_model(e)));
                    assert(json_seq_model(ws@) =~= wire_of_bytes(bs@.subrange(0, i as int + 1)));
                }
                i = i + 1;
            }
            assert(bs@.subrange(0, bs@.len() as int) =~= bs@);
            obj1(k, JsonValue::Arr(ws))
        },
        AttrValue::Text(t) => {
            let k = String::from_str("S");
            proof {
                reveal_strlit("S");
                assert(k@ =~= tag_s());
            }
            obj1(k, JsonValue::Str(t.clone()))
        },
        AttrValue::List(es) => {
            let k = String::from_str("L");
            proof {
                reveal_strlit("L");
                assert(k@ =~= tag_l());
            }
            let ws = encode_attr_list(es);
            obj1(k, JsonValue::Arr(ws))
        },
        AttrValue::MapVal(es) => {
            let k = String::from_str("M");
            proof {
                reveal_strlit("M");
                assert(k@ =~= tag_m());
            }
            let ws = encode_attr_entries(es);
            obj1(k, JsonValue::Obj(ws))
        },
        AttrValue::StrSet(ss) => {
            let k = String::from_str("SS");
            proof {
                reveal_strlit("SS");
                assert(k@ =~= tag_ss());
            }
            let ws = encode_text_list(ss);
            obj1(k, JsonValue::Arr(ws))
        },
        AttrValue::NumSet(ns) => {
            let k = String::from_str("NS");
            proof {
                reveal_strlit("NS");
                assert(k@ =~= tag_ns());
            }
            let ws = encode_text_list(ns);
            obj1(k, JsonValue::Arr(ws))
        },
    }
}

/// Writes list elements in their wire forms.
fn encode_attr_list(es: &Vec<AttrValue>) -> (r: Vec<JsonValue>)
    ensures
        json_seq_model(r@) == wire_of_list(attr_seq_model(es@)),
    decreases *es, 0int,
{
    proof {
        lemma_attr_seq_model_len(es@);
    }
    let ghost ms = attr_seq_model(es@);
    let mut ws: Vec<JsonValue> = Vec::new();
    proof {
        lemma_json_seq_model_len(ws@);
        assert(ms.subrange(0, 0) =~= Seq::<AttrModel>::empty());
        assert(json_seq_model(ws@) =~= wire_of_list(ms.subrange(0, 0)));
    }
    let mut i: usize = 0;
    while i < es.len()
        invariant
            i <= es@.len(),
            ms == attr_seq_model(es@),
            ms.len() == es@.len(),
            forall|j: int| 0 <= j < es@.len() ==> ms[j] == attr_model(es@[j]),
            json_seq_model(ws@) == wire_of_list(ms.subrange(0, i as int)),
        decreases es@.len() - i,
    {
        let e = encode_attr_wire(&es[i]);
        let ghost before = ws@;
        ws.push(e);
        proof {
            lemma_json_seq_model_len(before);
            lemma_json_seq_model_len(ws@);
            assert(json_seq_model(ws@) =~= json_seq_model(before).push(json_model(e)));
            lemma_wire_of_list_push(ms.subrange(0, i as int), ms[i as int]);
            assert(ms.subrange(0, i as int).push(ms[i as int]) =~= ms.subrange(0, i as int + 1));
        }
        i = i + 1;
    }
    assert(ms.subrange(0, ms.len() as int) =~= ms);
    ws
}

/// Writes map members in their wire forms.
fn encode_attr_entries(es: &Vec<(String, AttrValue)>) -> (r: Vec<(String, JsonValue)>)
    ensures
        json_entries_model(r@) == wire_of_entries(attr_entries_model(es@)),
    decreases *es, 0int,
{
    proof {
        lemma_attr_entries_model_len(es@);
    }
    let ghost ms = attr_entries_model(es@);
    let mut ws: Vec<(String, JsonValue)> = Vec::new();
    proof {
        lemma_json_entries_model_len(ws@);
        assert(ms.subrange(0, 0) =~= Seq::<(Seq<char>, AttrModel)>::empty());
        assert(json_entries_model(ws@) =~= wire_of_entries(ms.subrange(0, 0)));
    }
    let mut i: usize = 0;
    while i < es.len()
        invariant
            i <= es@.len(),
            ms == attr_entries_model(es@),
            ms.len() == es@.len(),
            forall|j: int| 0 <= j < es@.len() ==> ms[j] == (es@[j].0@, attr_model(es@[j].1)),
            json_entries_model(ws@) == wire_of_entries(ms.subrange(0, i as int)),
        decreases es@.len() - i,
    {
        let kk = es[i].0.clone();
        let e = encode_attr_wire(&es[i].1);
        let ghost ke = (kk@, json_model(e));
        let ghost before = ws@;
        ws.push((kk, e));
        proof {
            lemma_json_entries_model_len(before);
            lemma_json_entries_model_len(ws@);
            assert(json_entries_model(ws@) =~= json_entries_model(before).push(ke));
            lemma_wire_of_entries_push(ms.subrange(0, i as int), ms[i as int]);
            assert(ms.subrange(0, i as int).push(ms[i as int]) =~= ms.subrange(0, i as int + 1));
        }
        i = i + 1;
    }
    assert(ms.subrange(0, ms.len() as int) =~= ms);
    ws
}

/// Writes set members as wire strings.
fn encode_text_list(ts: &Vec<String>) -> (r: Vec<JsonValue>)
    ensures
        json_seq_model(r@) == wire_of_texts(texts_model(ts@)),
{
    let ghost ms = texts_model(ts@);
    let mut ws: Vec<JsonValue> = Vec::new();
    proof {
        lemma_json_seq_model_len(ws@);
        assert(json_seq_model(ws@) =~= wire_of_texts(ms).subrange(0, 0));
    }
    let mut i: usize = 0;
    while i < ts.len()
        invariant
            i <= ts@.len(),
            ms == texts_model(ts@),
            ms.len() == ts@.len(),
            forall|j: int| 0 <= j < ts@.len() ==> ms[j] == ts@[j]@,
            json_seq_model(ws@) == wire_of_texts(ms).subrange(0, i as int),
        decreases ts@.len() - i,
    {
        let e = JsonValue::Str(ts[i].clone());
        let ghost before = ws@;
        ws.push(e);
        proof {
            lemma_json_seq_model_len(before);
            lemma_json_seq_model_len(ws@);
            assert(json_seq_model(ws@) =~= json_seq_model(before).push(json_model(e)));
            assert(wire_of_texts(ms)[i as int] == JsonModel::Str(ms[i as int]));
            assert(json_seq_model(ws@) =~= wire_of_texts(ms).subrange(0, i as int + 1));
        }
        i = i + 1;
    }
    assert(wire_of_texts(ms).subrange(0, ms.len() as int) =~= wire_of_texts(ms));
    ws
}


/// The wire form of a whole item: each attribute in its wire form, names
/// kept.
pub fn encode_item_wire(item: &crate::encode::WriteItem) -> (r: Vec<(String, JsonValue)>)
    ensures
        json_entries_model(r@) == wire_of_entries(item@),
{
    encode_attr_entries(&item.entries)
}

/// Compares two string slices by their characters.
fn str_eq(a: &str, b: &str) -> (r: bool)
    ensures
        r == (a@ == b@),
{
    let na: usize = a.unicode_len();
    let nb: usize = b.unicode_len();
    if na != nb {
        return false;
    }
    let mut i: usize = 0;
    while i < na
        invariant
            i <= na,
            na == a@.len(),
            na == b@.len(),
            forall|j: int| 0 <= j < i ==> a@[j] == b@[j],
        decreases na - i,
    {
        if a.get_char(i) != b.get_char(i) {
            return false;
        }
        i = i + 1;
    }
    assert(a@ =~= b@);
    true
}

/// Reads one byte back from its wire text.
fn parse_byte(t: &String) -> (r: Option<u8>)
    ensures
        r == byte_of_text(t@),
{
    let cs = str_chars(t.as_str());
    let n: usize = cs.len();
    if n == 0 {
        return None;
    }
    let mut i: usize = 0;
    while i < n && cs[i] >= '0' && cs[i] <= '9'
        invariant
            i <= n,
            n == cs@.len(),
            cs@ == t@,
            forall|j: int| 0 <= j < i ==> is_digit(cs@[j]),
        decreases n - i,
    {
        i = i + 1;
    }
    if i < n {
        assert(!is_digit(t@[i as int]));
        return None;
    }
    if n > 1 && cs[0] == '0' {
        return None;
    }
    if n > 3 {
        proof {
            lemma_digits_val_lower(t@);
            lemma_pow10_mono(3, (t@.len() - 1) as nat);
            assert(pow10(3) == 1000) by {
                reveal_with_fuel(pow10, 5);
            }
        }
        return None;
    }
    let mut v: u32 = 0;
    let mut j: usize = 0;
    while j < n
        invariant
            j <= n,
            n == cs@.len(),
            n <= 3,
            cs@ == t@,
            forall|q: int| 0 <= q < n ==> is_digit(cs@[q]),
            v as int == digits_val(t@.subrange(0, j as int)),
            v < 1000,
        decreases n - j,
    {
        let c = cs[j];
        let d: u32 = (c as u32) - ('0' as u32);
        assert(0 <= d <= 9);
        assert(t@.subrange(0, j as int + 1).drop_last() =~= t@.subrange(0, j as int));
        assert(t@.subrange(0, j as int + 1).last() == c);
        proof {
            lemma_digits_val_bound(t@.subrange(0, j as int));
            lemma_pow10_mono((j as nat), 2);
            assert(pow10(2) == 100) by {
                reveal_with_fuel(pow10, 5);
            }
        }
        v = v * 10 + d;
        j = j + 1;
    }
    assert(t@.subrange(0, n as int) =~= t@);
    if v <= 255 {
        Some(v as u8)
    } else {
        None
    }
}

/// Reads a binary payload back.
fn decode_bytes(ws: &Vec<JsonValue>) -> (r: Option<Vec<u8>>)
    ensures
        match r {
            Some(bs) => bytes_of_wire(json_seq_model(ws@)) == Some(bs@),
            None => bytes_of_wire(json_seq_model(ws@)) is None,
        },
{
    proof {
        lemma_json_seq_model_len(ws@);
    }
    let ghost ms = json_seq_model(ws@);
    let mut out: Vec<u8> = Vec::new();
    let mut i: usize = 0;
    assert(ms.skip(0) =~= ms);
    while i < ws.len()
        invariant
            i <= ws@.len(),
            ms == json_seq_model(ws@),
            ms.len() == ws@.len(),
            forall|j: int| 0 <= j < ws@.len() ==> ms[j] == json_model(ws@[j]),
            out@.len() == i,
            match bytes_of_wire(ms.skip(i as int)) {
                Some(rest) => bytes_of_wire(ms) == Some(out@ + rest),
                None => bytes_of_wire(ms) is None,
            },
        decreases ws@.len() - i,
    {
        assert(ms.skip(i as int)[0] == ms[i as int]);
        assert(ms.skip(i as int).drop_first() =~= ms.skip(i as int + 1));
        match &ws[i] {
            JsonValue::Num(t) => {
                match parse_byte(t) {
                    Some(b) => {
                        out.push(b);
                        assert(forall|bs: Seq<u8>|
                            (out@.drop_last() + seq![b] + bs =~= out@ + bs));
                    },
                    None => {
                        return None;
                    },
                }
            },
            _ => {
                assert(!(ms[i as int] is Num));
                return None;
            },
        }
        i = i + 1;
    }
    assert(ms.skip(i as int).len() == 0);
    assert(out@ + Seq::<u8>::empty() =~= out@);
    Some(out)
}

/// Reads set members back.
fn decode_texts(ws: &Vec<JsonValue>) -> (r: Option<Vec<String>>)
    ensures
        match r {
            Some(ts) => texts_of_wire(json_seq_model(ws@)) == Some(texts_model(ts@)),
            None => texts_of_wire(json_seq_model(ws@)) is None,
        },
{
    proof {
        lemma_json_seq_model_len(ws@);
    }
    let ghost ms = json_seq_model(ws@);
    let mut out: Vec<String> = Vec::new();
    let mut i: usize = 0;
    assert(ms.skip(0) =~= ms);
    while i < ws.len()
        invariant
            i <= ws@.len(),
            ms == json_seq_model(ws@),
            ms.len() == ws@.len(),
            forall|j: int| 0 <= j < ws@.len() ==> ms[j] == json_model(ws@[j]),
            out@.len() == i,
            match texts_of_wire(ms.skip(i as int)) {
                Some(rest) => texts_of_wire(ms) == Some(texts_model(out@) + rest),
                None => texts_of_wire(ms) is None,
            },
        decreases ws@.len() - i,
    {
        assert(ms.skip(i as int)[0] == ms[i as int]);
        assert(ms.skip(i as int).drop_first() =~= ms.skip(i as int + 1));
        match &ws[i] {
            JsonValue::Str(t) => {
                let ghost before = out@;
                out.push(t.clone());
                assert(texts_model(out@) =~= texts_model(before).push(t@));
                assert(forall|bs: Seq<Seq<char>>|
                    (texts_model(before) + seq![t@] + bs =~= texts_model(out@) + bs));
            },
            _ => {
                assert(!(ms[i as int] is Str));
                return None;
            },
        }
        i = i + 1;
    }
    assert(ms.skip(i as int).len() == 0);
    assert(texts_model(out@) + Seq::<Seq<char>>::empty() =~= texts_model(out@));
    Some(out)
}

/// Reads list elements back.
fn decode_attr_list(ws: &Vec<JsonValue>) -> (r: Option<Vec<AttrValue>>)
    ensures
        match r {
            Some(es) => attrs_of_wire(json_seq_model(ws@)) == Some(attr_seq_model(es@)),
            None => attrs_of_wire(json_seq_model(ws@)) is None,
        },
    decreases *ws, 0int,
{
    proof {
        lemma_json_seq_model_len(ws@);
    }
    let ghost ms = json_seq_model(ws@);
    let mut out: Vec<AttrValue> = Vec::new();
    let mut i: usize = 0;
    assert(ms.skip(0) =~= ms);
    proof {
        lemma_attr_seq_model_len(out@);
    }
    while i < ws.len()
        invariant
            i <= ws@.len(),
            ms == json_seq_model(ws@),
            ms.len() == ws@.len(),
            forall|j: int| 0 <= j < ws@.len() ==> ms[j] == json_model(ws@[j]),
            out@.len() == i,
            match attrs_of_wire(ms.skip(i as int)) {
                Some(rest) => attrs_of_wire(ms) == Some(attr_seq_model(out@) + rest),
                None => attrs_of_wire(ms) is None,
            },
        decreases ws@.len() - i,
    {
        assert(ms.skip(i as int)[0] == ms[i as int]);
        assert(ms.skip(i as int).drop_first() =~= ms.skip(i as int + 1));
        match decode_attr_wire(&ws[i]) {
            Some(a) => {
                let ghost before = out@;
                let ghost am = attr_model(a);
                out.push(a);
                proof {
                    lemma_attr_seq_model_len(before);
                    lemma_attr_seq_model_len(out@);
                    assert(attr_seq_model(out@) =~= attr_seq_model(before).push(am));
                    assert(forall|bs: Seq<AttrModel>|
                        (attr_seq_model(before) + seq![am] + bs =~= attr_seq_model(out@) + bs));
                }
            },
            None => {
                return None;
            },
        }
        i = i + 1;
    }
    assert(ms.skip(i as int).len() == 0);
    assert(attr_seq_model(out@) + Seq::<AttrModel>::empty() =~= attr_seq_model(out@));
    Some(out)
}

/// Reads map members back.
fn decode_attr_entries(ws: &Vec<(String, JsonValue)>) -> (r: Option<Vec<(String, AttrValue)>>)
    ensures
        match r {
            Some(es) => attr_entries_of_wire(json_entries_model(ws@)) == Some(
                attr_entries_model(es@),
            ),
            None => attr_entries_of_wire(json_entries_model(ws@)) is None,
        },
    decreases *ws, 0int,
{
    proof {
        lemma_json_entries_model_len(ws@);
    }
    let ghost ms = json_entries_model(ws@);
    let mut out: Vec<(String, AttrValue)> = Vec::new();
    let mut i: usize = 0;
    assert(ms.skip(0) =~= ms);
    proof {
        lemma_attr_entries_model_len(out@);
    }
    while i < ws.len()
        invariant
            i <= ws@.len(),
            ms == json_entries_model(ws@),
            ms.len() == ws@.len(),
            forall|j: int| 0 <= j < ws@.len() ==> ms[j] == (ws@[j].0@, json_model(ws@[j].1)),
            out@.len() == i,
            match attr_entries_of_wire(ms.skip(i as int)) {
                Some(rest) => attr_entries_of_wire(ms) == Some(attr_entries_model(out@) + rest),
                None => attr_entries_of_wire(ms) is None,
            },
        decreases ws@.len() - i,
    {
        assert(ms.skip(i as int)[0] == ms[i as int]);
        assert(ms.skip(i as int).drop_first() =~= ms.skip(i as int + 1));
        match decode_attr_wire(&ws[i].1) {
            Some(a) => {
                let kk = ws[i].0.clone();
                let ghost before = out@;
                let ghost ka = (kk@, attr_model(a));
                out.push((kk, a));
                proof {
                    lemma_attr_entries_model_len(before);
                    lemma_attr_entries_model_len(out@);
                    assert(attr_entries_model(out@) =~= attr_entries_model(before).push(ka));
                    assert(forall|bs: Seq<(Seq<char>, AttrModel)>|
                        (attr_entries_model(before) + seq![ka] + bs =~= attr_entries_model(out@)
                            + bs));
                }
            },
            None => {
                return None;
            },
        }
        i = i + 1;
    }
    assert(ms.skip(i as int).len() == 0);
    assert(attr_entries_model(out@) + Seq::<(Seq<char>, AttrModel)>::empty()
        =~= attr_entries_model(out@));
    Some(out)
}

/// Reads an attribute value back from its wire form; `None` when the value
/// is not a single-tag attribute encoding.
pub fn decode_attr_wire(v: &JsonValue) -> (r: Option<AttrValue>)
    ensures
        match r {
            Some(a) => attr_of_wire(json_model(*v)) == Some(attr_model(a)),
            None => attr_of_wire(json_model(*v)) is None,
        },
    decreases *v, 1int,
{
    match v {
        JsonValue::Obj(es) => {
            proof {
                lemma_json_entries_model_len(es@);
            }
            if es.len() != 1 {
                return None;
            }
            let k = &es[0].0;
            let w = &es[0].1;
            assert(json_entries_model(es@)[0] == (k@, json_model(*w)));
            if str_eq(k.as_str(), "NULL") {
                proof {
                    reveal_strlit("NULL");
                    assert(k@ =~= tag_null());
                }
                match w {
                    JsonValue::Bool(b) => {
                        if *b {
                            Some(AttrValue::Null)
                        } else {
                            None
                        }
                    },
                    _ => None,
                }
            } else if str_eq(k.as_str(), "BOOL") {
                proof {
                    reveal_strlit("NULL");
                    reveal_strlit("BOOL");
                    assert(k@ =~= tag_bool());
                    assert(k@ != tag_null()) by {
                        if k@ == tag_null() {
                            assert(k@[0] == 'N');
                        }
                    }
                }
                match w {
                    JsonValue::Bool(b) => Some(AttrValue::Bool(*b)),
                    _ => None,
                }
            } else if str_eq(k.as_str(), "N") {
                proof {
                    reveal_strlit("NULL");
                    reveal_strlit("BOOL");
                    reveal_strlit("N");
                    assert(k@ =~= tag_n());
                    lemma_tags_distinct();
                }
                match w {
                    JsonValue::Str(t) => Some(AttrValue::Number(t.clone())),
                    _ => None,
                }
            } else if str_eq(k.as_str(), "B") {
                proof {
                    reveal_strlit("B");
                    assert(k@ =~= tag_b());
                    lemma_tags_distinct();
                }
                match w {
                    JsonValue::Arr(ws) => match decode_bytes(ws) {
                        Some(bs) => Some(AttrValue::Binary(bs)),
                        None => None,
                    },
                    _ => None,
                }
            } else if str_eq(k.as_str(), "S") {
                proof {
                    reveal_strlit("S");
                    assert(k@ =~= tag_s());
                    lemma_tags_distinct();
                }
                match w {
                    JsonValue::Str(t) => Some(AttrValue::Text(t.clone())),
                    _ => None,
                }
            } else if str_eq(k.as_str(), "L") {
                proof {
                    reveal_strlit("L");
                    assert(k@ =~= tag_l());
                    lemma_tags_distinct();
                }
                match w {
                    JsonValue::Arr(ws) => match decode_attr_list(ws) {
                        Some(es2) => Some(AttrValue::List(es2)),
                        None => None,
                    },
                    _ => None,
                }
            } else if str_eq(k.as_str(), "M") {
                proof {
                    reveal_strlit("M");
                    assert(k@ =~= tag_m());
                    lemma_tags_distinct();
                }
                match w {
                    JsonValue::Obj(ws) => match decode_attr_entries(ws) {
                        Some(es2) => Some(AttrValue::MapVal(es2)),
                        None => None,
                    },
                    _ => None,
                }
            } else if str_eq(k.as_str(), "SS") {
                proof {
                    reveal_strlit("SS");
                    assert(k@ =~= tag_ss());
                    lemma_tags_distinct();
                }
                match w {
                    JsonValue::Arr(ws) => match decode_texts(ws) {
                        Some(ts) => Some(AttrValue::StrSet(ts)),
                        None => None,
                    },
                    _ => None,
                }
            } else if str_eq(k.as_str(), "NS") {
                proof {
                    reveal_strlit("NS");
                    assert(k@ =~= tag_ns());
                    lemma_tags_distinct();
                }
                match w {
                    JsonValue::Arr(ws) => match decode_texts(ws) {
                        Some(ts) => Some(AttrValue::NumSet(ts)),
                        None => None,
                    },
                    _ => None,
                }
            } else {
                proof {
                    reveal_strlit("NULL");
                    reveal_strlit("BOOL");
                    reveal_strlit("N");
                    reveal_strlit("B");
                    reveal_strlit("S");
                    reveal_strlit("L");
                    reveal_strlit("M");
                    reveal_strlit("SS");
                    reveal_strlit("NS");
                    assert("NULL"@ =~= tag_null());
                    assert("BOOL"@ =~= tag_bool());
                    assert("N"@ =~= tag_n());
                    assert("B"@ =~= tag_b());
                    assert("S"@ =~= tag_s());
                    assert("L"@ =~= tag_l());
                    assert("M"@ =~= tag_m());
                    assert("SS"@ =~= tag_ss());
                    assert("NS"@ =~= tag_ns());
                    assert(k@ != tag_null() && k@ != tag_bool() && k@ != tag_n() && k@ != tag_b()
                        && k@ != tag_s() && k@ != tag_l() && k@ != tag_m() && k@ != tag_ss() && k@
                        != tag_ns());
                }
                None
            }
        },
        _ => None,
    }
}


} // verus!
