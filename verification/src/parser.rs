//! The type-inference engine: from an untyped text cell to a typed
//! attribute value.
//!
//! With a declared key type the hint decides the encoding outright. Without
//! one the cell is tried, in this fixed order, as: the exact text `null`; a
//! decimal number (kept verbatim); a boolean literal, case-insensitively; a
//! structured array or object, decoded recursively; and finally a plain
//! string, which accepts everything else.
//!
//! Arrays may become sets: only when the configuration allows it, the array
//! is non-empty, every element is a string (or every element a well-formed
//! number), and the elements are pairwise distinct — by exact text for
//! strings, numerically for numbers. Any violation keeps the array a list.

use vstd::prelude::*;

use crate::json::{
    spec_parse_json, parse_json_chars, json_model, json_seq_model, json_entries_model, JsonValue,
    JsonModel, null_chars, lemma_json_seq_model_len, lemma_json_entries_model_len,
};
use crate::number::{is_decimal, is_decimal_chars, is_json_number, is_json_number_chars, num_eq, num_equal};
use crate::value::{attr_model, attr_seq_model, attr_entries_model, texts_model, AttrValue, AttrModel,
    lemma_attr_seq_model_len, lemma_attr_entries_model_len};
use crate::util::str_chars;
use vstd::utf8::encode_utf8;

verus! {

/// The inference configuration: whether eligible arrays become sets, and
/// whether null values are kept.
pub struct Parser {
    pub allow_set: bool,
    pub allow_null: bool,
}

/// Whether a list or map member survives null filtering.
pub open spec fn keep_elem(allow_null: bool, v: JsonModel) -> bool {
    allow_null || !(v is Null)
}

/// Whether every element is a string.
pub open spec fn all_strings(es: Seq<JsonModel>) -> bool {
    forall|i: int| 0 <= i < es.len() ==> es[i] is Str
}

/// The string contents of the elements.
pub open spec fn str_texts(es: Seq<JsonModel>) -> Seq<Seq<char>> {
    es.map_values(|e: JsonModel| e->Str_0)
}

/// Whether every element is a well-formed number.
pub open spec fn all_numbers(es: Seq<JsonModel>) -> bool {
    forall|i: int| 0 <= i < es.len() ==> es[i] is Num && is_json_number(es[i]->Num_0)
}

/// The number texts of the elements.
pub open spec fn num_texts(es: Seq<JsonModel>) -> Seq<Seq<char>> {
    es.map_values(|e: JsonModel| e->Num_0)
}

/// Pairwise distinctness by exact text.
pub open spec fn texts_distinct(ts: Seq<Seq<char>>) -> bool {
    forall|i: int, j: int| 0 <= i < j < ts.len() ==> ts[i] != ts[j]
}

/// Pairwise distinctness by numeric value.
pub open spec fn nums_distinct(ts: Seq<Seq<char>>) -> bool {
    forall|i: int, j: int| 0 <= i < j < ts.len() ==> !num_eq(ts[i], ts[j])
}

/// Whether an array is eligible to become a string set.
pub open spec fn string_set_ok(allow_set: bool, es: Seq<JsonModel>) -> bool {
    allow_set && es.len() > 0 && all_strings(es) && texts_distinct(str_texts(es))
}

/// Whether an array is eligible to become a number set.
pub open spec fn number_set_ok(allow_set: bool, es: Seq<JsonModel>) -> bool {
    allow_set && es.len() > 0 && all_numbers(es) && nums_distinct(num_texts(es))
}

/// The decoding of one structured value into an attribute value.
pub open spec fn decode_value(allow_set: bool, allow_null: bool, v: JsonModel) -> AttrModel
    decreases v,
{
    match v {
        JsonModel::Null => AttrModel::Null,
        JsonModel::Bool(b) => AttrModel::Bool(b),
        JsonModel::Num(t) => AttrModel::Number(t),
        JsonModel::Str(t) => AttrModel::Text(t),
        JsonModel::Arr(es) => if string_set_ok(allow_set, es) {
            AttrModel::StrSet(str_texts(es))
        } else if number_set_ok(allow_set, es) {
            AttrModel::NumSet(num_texts(es))
        } else {
            AttrModel::List(decode_list(allow_set, allow_null, es))
        },
        JsonModel::Obj(es) => AttrModel::MapVal(decode_entries(allow_set, allow_null, es)),
    }
}

/// The decoding of array elements, dropping nulls unless they are kept.
pub open spec fn decode_list(allow_set: bool, allow_null: bool, es: Seq<JsonModel>) -> Seq<
    AttrModel,
>
    decreases es,
{
    if es.len() == 0 {
        Seq::empty()
    } else {
        let rest = decode_list(allow_set, allow_null, es.drop_first());
        if keep_elem(allow_null, es[0]) {
            seq![decode_value(allow_set, allow_null, es[0])] + rest
        } else {
            rest
        }
    }
}

/// The decoding of object members, dropping null members unless kept.
pub open spec fn decode_entries(
    allow_set: bool,
    allow_null: bool,
    es: Seq<(Seq<char>, JsonModel)>,
) -> Seq<(Seq<char>, AttrModel)>
    decreases es,
{
    if es.len() == 0 {
        Seq::empty()
    } else {
        let rest = decode_entries(allow_set, allow_null, es.drop_first());
        if keep_elem(allow_null, es[0].1) {
            seq![(es[0].0, decode_value(allow_set, allow_null, es[0].1))] + rest
        } else {
            rest
        }
    }
}

/// Case-insensitive match of one character against a lower-case letter.
pub open spec fn eq_ci(c: char, lo: char, up: char) -> bool {
    c == lo || c == up
}

/// The boolean literal `true`, case-insensitively.
pub open spec fn is_bool_true(t: Seq<char>) -> bool {
    t.len() == 4 && eq_ci(t[0], 't', 'T') && eq_ci(t[1], 'r', 'R') && eq_ci(t[2], 'u', 'U')
        && eq_ci(t[3], 'e', 'E')
}

/// The boolean literal `false`, case-insensitively.
pub open spec fn is_bool_false(t: Seq<char>) -> bool {
    t.len() == 5 && eq_ci(t[0], 'f', 'F') && eq_ci(t[1], 'a', 'A') && eq_ci(t[2], 'l', 'L')
        && eq_ci(t[3], 's', 'S') && eq_ci(t[4], 'e', 'E')
}

/// The heuristic inference for a cell without a declared type, in its fixed
/// precedence order.
pub open spec fn spec_infer(allow_set: bool, allow_null: bool, t: Seq<char>) -> AttrModel {
    if t == null_chars() {
        AttrModel::Null
    } else if is_decimal(t) {
        AttrModel::Number(t)
    } else if is_bool_true(t) {
        AttrModel::Bool(true)
    } else if is_bool_false(t) {
        AttrModel::Bool(false)
    } else {
        match spec_parse_json(t) {
            Some(v) => if (v is Arr) || (v is Obj) {
                decode_value(allow_set, allow_null, v)
            } else {
                AttrModel::Text(t)
            },
            None => AttrModel::Text(t),
        }
    }
}

/// The full inference: a declared key type of `N`, `B` or `S` decides the
/// encoding outright, anything else falls back to the heuristic.
pub open spec fn spec_build_attr(
    allow_set: bool,
    allow_null: bool,
    hint: Option<Seq<char>>,
    t: Seq<char>,
) -> AttrModel {
    match hint {
        Some(h) => if h == seq!['N'] {
            AttrModel::Number(t)
        } else if h == seq!['B'] {
            AttrModel::Binary(encode_utf8(t))
        } else if h == seq!['S'] {
            AttrModel::Text(t)
        } else {
            spec_infer(allow_set, allow_null, t)
        },
        None => spec_infer(allow_set, allow_null, t),
    }
}

/// The model of an optional declared-type text.
pub open spec fn opt_text(o: Option<&String>) -> Option<Seq<char>> {
    match o {
        Some(h) => Some(h@),
        None => None,
    }
}

/// Collects the string contents of the elements; `None` when some element
/// is not a string.
fn collect_strings(es: &Vec<JsonValue>) -> (r: Option<Vec<String>>)
    ensures
        r is Some <==> all_strings(json_seq_model(es@)),
        r matches Some(ts) ==> texts_model(ts@) == str_texts(json_seq_model(es@)),
{
    proof {
        lemma_json_seq_model_len(es@);
    }
    let ghost ms = json_seq_model(es@);
    let mut ts: Vec<String> = Vec::new();
    let mut i: usize = 0;
    while i < es.len()
        invariant
            i <= es@.len(),
            ms == json_seq_model(es@),
            ms.len() == es@.len(),
            forall|j: int| 0 <= j < es@.len() ==> ms[j] == json_model(es@[j]),
            forall|j: int| 0 <= j < i ==> ms[j] is Str,
            ts@.len() == i,
            forall|j: int| 0 <= j < i ==> ts@[j]@ == ms[j]->Str_0,
        decreases es@.len() - i,
    {
        match &es[i] {
            JsonValue::Str(t) => {
                ts.push(t.clone());
            },
            _ => {
                assert(!(ms[i as int] is Str));
                return None;
            },
        }
        i = i + 1;
    }
    assert(texts_model(ts@) =~= str_texts(ms));
    Some(ts)
}

/// Collects the number texts of the elements; `None` when some element is
/// not a well-formed number.
fn collect_numbers(es: &Vec<JsonValue>) -> (r: Option<Vec<String>>)
    ensures
        r is Some <==> all_numbers(json_seq_model(es@)),
        r matches Some(ts) ==> texts_model(ts@) == num_texts(json_seq_model(es@)),
{
    proof {
        lemma_json_seq_model_len(es@);
    }
    let ghost ms = json_seq_model(es@);
    let mut ts: Vec<String> = Vec::new();
    let mut i: usize = 0;
    while i < es.len()
        invariant
            i <= es@.len(),
            ms == json_seq_model(es@),
            ms.len() == es@.len(),
            forall|j: int| 0 <= j < es@.len() ==> ms[j] == json_model(es@[j]),
            forall|j: int| 0 <= j < i ==> ms[j] is Num && is_json_number(ms[j]->Num_0),
            ts@.len() == i,
            forall|j: int| 0 <= j < i ==> ts@[j]@ == ms[j]->Num_0,
        decreases es@.len() - i,
    {
        match &es[i] {
            JsonValue::Num(t) => {
                let cs = str_chars(t.as_str());
                if is_json_number_chars(&cs) {
                    ts.push(t.clone());
                } else {
                    assert(!(ms[i as int] is Num && is_json_number(ms[i as int]->Num_0)));
                    return None;
                }
            },
            _ => {
                assert(!(ms[i as int] is Num));
                return None;
            },
        }
        i = i + 1;
    }
    assert(texts_model(ts@) =~= num_texts(ms));
    Some(ts)
}

/// Decides pairwise distinctness by exact text.
fn strings_distinct(ts: &Vec<String>) -> (r: bool)
    ensures
        r == texts_distinct(texts_model(ts@)),
{
    let ghost ms = texts_model(ts@);
    let n: usize = ts.len();
    let mut i: usize = 0;
    while i < n
        invariant
            i <= n,
            n == ts@.len(),
            ms == texts_model(ts@),
            ms.len() == n,
            forall|a: int, b: int| 0 <= a < b < ms.len() && a < i ==> ms[a] != ms[b],
        decreases n - i,
    {
        let mut j: usize = i + 1;
        while j < n
            invariant
                i < j <= n,
                n == ts@.len(),
                ms == texts_model(ts@),
                ms.len() == n,
                forall|b: int| i < b < j ==> ms[i as int] != ms[b],
            decreases n - j,
        {
            if ts[i] == ts[j] {
                assert(ms[i as int] == ts@[i as int]@ && ms[j as int] == ts@[j as int]@);
                assert(ms[i as int] == ms[j as int]);
                assert(!texts_distinct(ms));
                return false;
            }
            j = j + 1;
        }
        i = i + 1;
    }
    true
}

/// Decides pairwise distinctness by numeric value.
fn numbers_distinct(ts: &Vec<String>) -> (r: bool)
    requires
        forall|j: int| 0 <= j < ts@.len() ==> is_json_number(#[trigger] ts@[j]@),
    ensures
        r == nums_distinct(texts_model(ts@)),
{
    let ghost ms = texts_model(ts@);
    let n: usize = ts.len();
    let mut i: usize = 0;
    while i < n
        invariant
            i <= n,
            n == ts@.len(),
            ms == texts_model(ts@),
            ms.len() == n,
            forall|j: int| 0 <= j < n ==> is_json_number(#[trigger] ts@[j]@),
            forall|a: int, b: int| 0 <= a < b < ms.len() && a < i ==> !num_eq(ms[a], ms[b]),
        decreases n - i,
    {
        let ci = str_chars(ts[i].as_str());
        let mut j: usize = i + 1;
        while j < n
            invariant
                i < j <= n,
                n == ts@.len(),
                ms == texts_model(ts@),
                ms.len() == n,
                ci@ == ms[i as int],
                forall|q: int| 0 <= q < n ==> is_json_number(#[trigger] ts@[q]@),
                forall|b: int| i < b < j ==> !num_eq(ms[i as int], ms[b]),
            decreases n - j,
        {
            let cj = str_chars(ts[j].as_str());
            if num_equal(&ci, &cj) {
                assert(ms[j as int] == ts@[j as int]@);
                assert(num_eq(ms[i as int], ms[j as int]));
                assert(!nums_distinct(ms));
                return false;
            }
            j = j + 1;
        }
        i = i + 1;
    }
    true
}

/// Appending an element to the input extends the decoded list by the
/// element's decoding, or by nothing when it is a dropped null.
proof fn lemma_decode_list_push(allow_set: bool, allow_null: bool, es: Seq<JsonModel>, x: JsonModel)
    ensures
        decode_list(allow_set, allow_null, es.push(x)) == decode_list(allow_set, allow_null, es)
            + (if keep_elem(allow_null, x) {
            seq![decode_value(allow_set, allow_null, x)]
        } else {
            Seq::<AttrModel>::empty()
        }),
    decreases es,
{
    let tail = if keep_elem(allow_null, x) {
        seq![decode_value(allow_set, allow_null, x)]
    } else {
        Seq::<AttrModel>::empty()
    };
    if es.len() == 0 {
        reveal_with_fuel(decode_list, 3);
        assert(es.push(x)[0] == x);
        assert(es.push(x).drop_first() =~= Seq::<JsonModel>::empty());
        assert(es.push(x).drop_first().len() == 0);
        assert(decode_list(allow_set, allow_null, es.push(x)) =~= decode_list(
            allow_set,
            allow_null,
            es,
        ) + tail);
    } else {
        assert(es.push(x)[0] == es[0]);
        assert(es.push(x).drop_first() =~= es.drop_first().push(x));
        lemma_decode_list_push(allow_set, allow_null, es.drop_first(), x);
        assert(decode_list(allow_set, allow_null, es.push(x)) =~= decode_list(
            allow_set,
            allow_null,
            es,
        ) + tail);
    }
}

/// The entry analogue of `lemma_decode_list_push`.
proof fn lemma_decode_entries_push(
    allow_set: bool,
    allow_null: bool,
    es: Seq<(Seq<char>, JsonModel)>,
    x: (Seq<char>, JsonModel),
)
    ensures
        decode_entries(allow_set, allow_null, es.push(x)) == decode_entries(
            allow_set,
            allow_null,
            es,
        ) + (if keep_elem(allow_null, x.1) {
            seq![(x.0, decode_value(allow_set, allow_null, x.1))]
        } else {
            Seq::<(Seq<char>, AttrModel)>::empty()
        }),
    decreases es,
{
    let tail = if keep_elem(allow_null, x.1) {
        seq![(x.0, decode_value(allow_set, allow_null, x.1))]
    } else {
        Seq::<(Seq<char>, AttrModel)>::empty()
    };
    if es.len() == 0 {
        reveal_with_fuel(decode_entries, 3);
        assert(es.push(x)[0] == x);
        assert(es.push(x).drop_first() =~= Seq::<(Seq<char>, JsonModel)>::empty());
        assert(es.push(x).drop_first().len() == 0);
        assert(decode_entries(allow_set, allow_null, es.push(x)) =~= decode_entries(
            allow_set,
            allow_null,
            es,
        ) + tail);
    } else {
        assert(es.push(x)[0] == es[0]);
        assert(es.push(x).drop_first() =~= es.drop_first().push(x));
        lemma_decode_entries_push(allow_set, allow_null, es.drop_first(), x);
        assert(decode_entries(allow_set, allow_null, es.push(x)) =~= decode_entries(
            allow_set,
            allow_null,
            es,
        ) + tail);
    }
}

impl Parser {
    /// Decodes one structured value into an attribute value.
    pub fn decode_value(&self, v: &JsonValue) -> (r: AttrValue)
        ensures
            attr_model(r) == decode_value(self.allow_set, self.allow_null, json_model(*v)),
        decreases *v, 1int,
    {
        match v {
            JsonValue::Null => AttrValue::Null,
            JsonValue::Bool(b) => AttrValue::Bool(*b),
            JsonValue::Num(t) => AttrValue::Number(t.clone()),
            JsonValue::Str(t) => AttrValue::Text(t.clone()),
            JsonValue::Arr(es) => {
                proof {
                    lemma_json_seq_model_len(es@);
                }
                let ghost ms = json_seq_model(es@);
                if self.allow_set && es.len() > 0 {
                    match collect_strings(es) {
                        Some(ts) => {
                            if strings_distinct(&ts) {
                                assert(string_set_ok(self.allow_set, ms));
                                return AttrValue::StrSet(ts);
                            } else {
                                assert(!string_set_ok(self.allow_set, ms));
                                assert(!number_set_ok(self.allow_set, ms)) by {
                                    assert(ms[0] is Str);
                                }
                                return AttrValue::List(self.decode_elems(es));
                            }
                        },
                        None => {
                            assert(!string_set_ok(self.allow_set, ms));
                            match collect_numbers(es) {
                                Some(ts) => {
                                    assert forall|j: int| 0 <= j < ts@.len() implies is_json_number(
                                        #[trigger] ts@[j]@,
                                    ) by {
                                        assert(texts_model(ts@)[j] == ts@[j]@);
                                        assert(num_texts(ms)[j] == ms[j]->Num_0);
                                        assert(ms[j] is Num && is_json_number(ms[j]->Num_0));
                                    }
                                    if numbers_distinct(&ts) {
                                        assert(number_set_ok(self.allow_set, ms));
                                        return AttrValue::NumSet(ts);
                                    } else {
                                        assert(!number_set_ok(self.allow_set, ms));
                                        return AttrValue::List(self.decode_elems(es));
                                    }
                                },
                                None => {
                                    assert(!number_set_ok(self.allow_set, ms));
                                    return AttrValue::List(self.decode_elems(es));
                                },
                            }
                        },
                    }
                } else {
                    assert(!string_set_ok(self.allow_set, ms) && !number_set_ok(
                        self.allow_set,
                        ms,
                    ));
                    AttrValue::List(self.decode_elems(es))
                }
            },
            JsonValue::Obj(es) => AttrValue::MapVal(self.decode_members(es)),
        }
    }

    /// Decodes the elements of an array into list members.
    fn decode_elems(&self, es: &Vec<JsonValue>) -> (r: Vec<AttrValue>)
        ensures
            attr_seq_model(r@) == decode_list(self.allow_set, self.allow_null, json_seq_model(es@)),
        decreases *es, 0int,
    {
        proof {
            lemma_json_seq_model_len(es@);
        }
        let ghost ms = json_seq_model(es@);
        let mut out: Vec<AttrValue> = Vec::new();
        proof {
            lemma_attr_seq_model_len(out@);
            assert(ms.subrange(0, 0) =~= Seq::<JsonModel>::empty());
        }
        let mut i: usize = 0;
        while i < es.len()
            invariant
                i <= es@.len(),
                ms == json_seq_model(es@),
                ms.len() == es@.len(),
                forall|j: int| 0 <= j < es@.len() ==> ms[j] == json_model(es@[j]),
                attr_seq_model(out@) == decode_list(
                    self.allow_set,
                    self.allow_null,
                    ms.subrange(0, i as int),
                ),
            decreases es@.len() - i,
        {
            let keep: bool = self.allow_null || !matches!(&es[i], JsonValue::Null);
            assert(keep == keep_elem(self.allow_null, ms[i as int]));
            proof {
                lemma_decode_list_push(
                    self.allow_set,
                    self.allow_null,
                    ms.subrange(0, i as int),
                    ms[i as int],
                );
                assert(ms.subrange(0, i as int).push(ms[i as int]) =~= ms.subrange(0, i as int + 1));
            }
            if keep {
                let ghost before = out@;
                let a = self.decode_value(&es[i]);
                out.push(a);
                proof {
                    lemma_attr_seq_model_len(before);
                    lemma_attr_seq_model_len(out@);
                    assert(attr_seq_model(out@) =~= attr_seq_model(before).push(attr_model(a)));
                }
            }
            i = i + 1;
        }
        assert(ms.subrange(0, es@.len() as int) =~= ms);
        out
    }

    /// Decodes the members of an object into map entries.
    fn decode_members(&self, es: &Vec<(String, JsonValue)>) -> (r: Vec<(String, AttrValue)>)
        ensures
            attr_entries_model(r@) == decode_entries(
                self.allow_set,
                self.allow_null,
                json_entries_model(es@),
            ),
        decreases *es, 0int,
    {
        proof {
            lemma_json_entries_model_len(es@);
        }
        let ghost ms = json_entries_model(es@);
        let mut out: Vec<(String, AttrValue)> = Vec::new();
        proof {
            lemma_attr_entries_model_len(out@);
            assert(ms.subrange(0, 0) =~= Seq::<(Seq<char>, JsonModel)>::empty());
        }
        let mut i: usize = 0;
        while i < es.len()
            invariant
                i <= es@.len(),
                ms == json_entries_model(es@),
                ms.len() == es@.len(),
                forall|j: int| 0 <= j < es@.len() ==> ms[j] == (es@[j].0@, json_model(es@[j].1)),
                attr_entries_model(out@) == decode_entries(
                    self.allow_set,
                    self.allow_null,
                    ms.subrange(0, i as int),
                ),
            decreases es@.len() - i,
        {
            let keep: bool = self.allow_null || !matches!(&es[i].1, JsonValue::Null);
            assert(keep == keep_elem(self.allow_null, ms[i as int].1));
            proof {
                lemma_decode_entries_push(
                    self.allow_set,
                    self.allow_null,
                    ms.subrange(0, i as int),
                    ms[i as int],
                );
                assert(ms.subrange(0, i as int).push(ms[i as int]) =~= ms.subrange(0, i as int + 1));
            }
            if keep {
                let ghost before = out@;
                let k = es[i].0.clone();
                let a = self.decode_value(&es[i].1);
                let ghost ka = (k@, attr_model(a));
                out.push((k, a));
                proof {
                    lemma_attr_entries_model_len(before);
                    lemma_attr_entries_model_len(out@);
                    assert(attr_entries_model(out@) =~= attr_entries_model(before).push(ka));
                }
            }
            i = i + 1;
        }
        assert(ms.subrange(0, es@.len() as int) =~= ms);
        out
    }

    /// Infers an attribute value for a cell without a declared type.
    pub fn parse_string_as_attr(&self, text: String) -> (r: AttrValue)
        ensures
            attr_model(r) == spec_infer(self.allow_set, self.allow_null, text@),
    {
        let cs = str_chars(text.as_str());
        if cs.len() == 4 && cs[0] == 'n' && cs[1] == 'u' && cs[2] == 'l' && cs[3] == 'l' {
            assert(cs@ =~= null_chars());
            return AttrValue::Null;
        }
        assert(cs@ != null_chars()) by {
            if cs@ == null_chars() {
                assert(cs@.len() == 4 && cs@[0] == 'n' && cs@[1] == 'u' && cs@[2] == 'l' && cs@[3]
                    == 'l');
            }
        }
        if is_decimal_chars(&cs) {
            return AttrValue::Number(text);
        }
        let t = (cs.len() == 4 && (cs[0] == 't' || cs[0] == 'T') && (cs[1] == 'r' || cs[1] == 'R')
            && (cs[2] == 'u' || cs[2] == 'U') && (cs[3] == 'e' || cs[3] == 'E'));
        if t {
            return AttrValue::Bool(true);
        }
        let f = (cs.len() == 5 && (cs[0] == 'f' || cs[0] == 'F') && (cs[1] == 'a' || cs[1] == 'A')
            && (cs[2] == 'l' || cs[2] == 'L') && (cs[3] == 's' || cs[3] == 'S') && (cs[4] == 'e'
            || cs[4] == 'E'));
        if f {
            return AttrValue::Bool(false);
        }
        match parse_json_chars(&cs) {
            Some(v) => {
                let structured = matches!(&v, JsonValue::Arr(_)) || matches!(&v, JsonValue::Obj(_));
                if structured {
                    self.decode_value(&v)
                } else {
                    AttrValue::Text(text)
                }
            },
            None => AttrValue::Text(text),
        }
    }

    /// Builds the attribute value for one cell: a declared key type of `N`,
    /// `B` or `S` decides the encoding, anything else is inferred.
    pub fn build_attr(&self, column_type: Option<&String>, text: String) -> (r: AttrValue)
        ensures
            attr_model(r) == spec_build_attr(
                self.allow_set,
                self.allow_null,
                opt_text(column_type),
                text@,
            ),
    {
        match column_type {
            Some(h) => {
                let hc = str_chars(h.as_str());
                if hc.len() == 1 && hc[0] == 'N' {
                    assert(hc@ =~= seq!['N']);
                    AttrValue::Number(text)
                } else if hc.len() == 1 && hc[0] == 'B' {
                    assert(hc@ =~= seq!['B']);
                    assert(hc@ != seq!['N']);
                    AttrValue::Binary(text.as_str().as_bytes_vec())
                } else if hc.len() == 1 && hc[0] == 'S' {
                    assert(hc@ =~= seq!['S']);
                    assert(hc@ != seq!['N'] && hc@ != seq!['B']);
                    AttrValue::Text(text)
                } else {
                    assert(hc@ != seq!['N'] && hc@ != seq!['B'] && hc@ != seq!['S']) by {
                        if hc@ == seq!['N'] || hc@ == seq!['B'] || hc@ == seq!['S'] {
                            assert(hc@.len() == 1);
                        }
                    }
                    self.parse_string_as_attr(text)
                }
            },
            None => self.parse_string_as_attr(text),
        }
    }
}

/// Every cell in the decimal-number grammar infers to a number attribute
/// carrying the cell's text unchanged, whatever the configuration.
pub proof fn lemma_decimal_infers_number(allow_set: bool, allow_null: bool, t: Seq<char>)
    requires
        is_decimal(t),
    ensures
        spec_infer(allow_set, allow_null, t) == AttrModel::Number(t),
{
    assert(!is_decimal(null_chars())) by {
        reveal_with_fuel(crate::number::digits_end, 2);
    }
}

/// An array with set inference enabled becomes a string set exactly when it
/// is non-empty, all strings and pairwise distinct; a number set exactly
/// when it is non-empty, all well-formed numbers and numerically distinct;
/// and in every other case a list of the decoded elements.
pub proof fn lemma_array_set_inference(allow_set: bool, allow_null: bool, es: Seq<JsonModel>)
    ensures
        string_set_ok(allow_set, es) ==> decode_value(allow_set, allow_null, JsonModel::Arr(es))
            == AttrModel::StrSet(str_texts(es)),
        !string_set_ok(allow_set, es) && number_set_ok(allow_set, es) ==> decode_value(
            allow_set,
            allow_null,
            JsonModel::Arr(es),
        ) == AttrModel::NumSet(num_texts(es)),
        !string_set_ok(allow_set, es) && !number_set_ok(allow_set, es) ==> decode_value(
            allow_set,
            allow_null,
            JsonModel::Arr(es),
        ) == AttrModel::List(decode_list(allow_set, allow_null, es)),
{
}

} // verus!
