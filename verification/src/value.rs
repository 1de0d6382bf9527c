//! The attribute value model: the tagged union that one column of one row
//! encodes to, together with its mathematical model.
//!
//! Exactly one tag is populated per instance. `Number` carries the decimal
//! text verbatim, so no precision is lost to any numeric round trip.

use vstd::prelude::*;

verus! {

/// One DynamoDB attribute value: the result of inferring a type for a cell.
#[derive(Debug, PartialEq, Eq)]
pub enum AttrValue {
    /// The null attribute.
    Null,
    /// A boolean attribute.
    Bool(bool),
    /// A number attribute; the decimal text is kept verbatim.
    Number(String),
    /// A binary attribute.
    Binary(Vec<u8>),
    /// A string attribute.
    Text(String),
    /// A list of nested attribute values.
    List(Vec<AttrValue>),
    /// A map from attribute names to nested attribute values.
    MapVal(Vec<(String, AttrValue)>),
    /// A set of distinct strings; never empty.
    StrSet(Vec<String>),
    /// A set of numerically distinct decimal texts; never empty.
    NumSet(Vec<String>),
}

/// The mathematical model of an attribute value, over `Seq` and `int`.
pub enum AttrModel {
    Null,
    Bool(bool),
    Number(Seq<char>),
    Binary(Seq<u8>),
    Text(Seq<char>),
    List(Seq<AttrModel>),
    MapVal(Seq<(Seq<char>, AttrModel)>),
    StrSet(Seq<Seq<char>>),
    NumSet(Seq<Seq<char>>),
}

/// The model of an attribute value, structurally.
pub open spec fn attr_model(v: AttrValue) -> AttrModel
    decreases v,
{
    match v {
        AttrValue::Null => AttrModel::Null,
        AttrValue::Bool(b) => AttrModel::Bool(b),
        AttrValue::Number(t) => AttrModel::Number(t@),
        AttrValue::Binary(bs) => AttrModel::Binary(bs@),
        AttrValue::Text(t) => AttrModel::Text(t@),
        AttrValue::List(es) => AttrModel::List(attr_seq_model(es@)),
        AttrValue::MapVal(es) => AttrModel::MapVal(attr_entries_model(es@)),
        AttrValue::StrSet(ss) => AttrModel::StrSet(texts_model(ss@)),
        AttrValue::NumSet(ns) => AttrModel::NumSet(texts_model(ns@)),
    }
}

/// The models of a sequence of attribute values, elementwise.
pub open spec fn attr_seq_model(s: Seq<AttrValue>) -> Seq<AttrModel>
    decreases s,
{
    if s.len() == 0 {
        Seq::empty()
    } else {
        seq![attr_model(s[0])] + attr_seq_model(s.drop_first())
    }
}

/// The models of a sequence of named attribute values, elementwise.
pub open spec fn attr_entries_model(s: Seq<(String, AttrValue)>) -> Seq<(Seq<char>, AttrModel)>
    decreases s,
{
    if s.len() == 0 {
        Seq::empty()
    } else {
        seq![(s[0].0@, attr_model(s[0].1))] + attr_entries_model(s.drop_first())
    }
}

/// The models of a sequence of strings, elementwise.
pub open spec fn texts_model(s: Seq<String>) -> Seq<Seq<char>> {
    s.map_values(|x: String| x@)
}

impl View for AttrValue {
    type V = AttrModel;

    open spec fn view(&self) -> AttrModel {
        attr_model(*self)
    }
}

/// Basic shape facts about element models.
pub proof fn lemma_attr_seq_model_len(s: Seq<AttrValue>)
    ensures
        attr_seq_model(s).len() == s.len(),
        forall|i: int| 0 <= i < s.len() ==> attr_seq_model(s)[i] == attr_model(s[i]),
    decreases s,
{
    if s.len() > 0 {
        lemma_attr_seq_model_len(s.drop_first());
    }
}

/// Basic shape facts about entry models.
pub proof fn lemma_attr_entries_model_len(s: Seq<(String, AttrValue)>)
    ensures
        attr_entries_model(s).len() == s.len(),
        forall|i: int| 0 <= i < s.len() ==> attr_entries_model(s)[i] == (s[i].0@, attr_model(
            s[i].1,
        )),
    decreases s,
{
    if s.len() > 0 {
        lemma_attr_entries_model_len(s.drop_first());
    }
}

} // verus!
