//! The row encoder: one write item from a header, a row and the table's
//! declared key types.
//!
//! A row is encodable exactly when its cell count equals the header's
//! column count; a mismatched row is rejected with an `ArityError`, never
//! truncated or padded. Each column's cell is inferred with its declared
//! type, if the table reports one. When null retention is off, a column
//! whose value infers to null is left out of the item entirely.

use vstd::prelude::*;

use crate::parser::{spec_build_attr, Parser};
use crate::value::{attr_model, attr_entries_model, texts_model, AttrValue, AttrModel,
    lemma_attr_entries_model_len};

verus! {

/// A rejected row: its cell count does not match the header.
#[derive(Debug, PartialEq, Eq, Clone, Copy)]
pub struct ArityError {
    pub header_len: usize,
    pub row_len: usize,
}

/// One write item: the attribute values of one row, named by column.
#[derive(Debug, PartialEq, Eq)]
pub struct WriteItem {
    pub entries: Vec<(String, AttrValue)>,
}

impl View for WriteItem {
    type V = Seq<(Seq<char>, AttrModel)>;

    open spec fn view(&self) -> Seq<(Seq<char>, AttrModel)> {
        attr_entries_model(self.entries@)
    }
}

/// The models of a sequence of named texts.
pub open spec fn pairs_model(s: Seq<(String, String)>) -> Seq<(Seq<char>, Seq<char>)> {
    s.map_values(|p: (String, String)| (p.0@, p.1@))
}

/// The declared type of a column, by its first occurrence in the table's
/// attribute definitions.
pub open spec fn hint_of(attrs: Seq<(Seq<char>, Seq<char>)>, name: Seq<char>) -> Option<Seq<char>>
    decreases attrs,
{
    if attrs.len() == 0 {
        None
    } else if attrs[0].0 == name {
        Some(attrs[0].1)
    } else {
        hint_of(attrs.drop_first(), name)
    }
}

/// Looks a column up in the attribute definitions; the index of the first
/// match, if any.
fn hint_lookup(attrs: &Vec<(String, String)>, name: &String) -> (r: Option<usize>)
    ensures
        match r {
            Some(i) => i < attrs@.len() && hint_of(pairs_model(attrs@), name@) == Some(
                attrs@[i as int].1@,
            ),
            None => hint_of(pairs_model(attrs@), name@) is None,
        },
{
    let ghost ms = pairs_model(attrs@);
    let mut i: usize = 0;
    assert(ms.skip(0) =~= ms);
    while i < attrs.len() && !(attrs[i].0 == *name)
        invariant
            i <= attrs@.len(),
            ms == pairs_model(attrs@),
            ms.len() == attrs@.len(),
            forall|j: int| 0 <= j < attrs@.len() ==> ms[j] == (attrs@[j].0@, attrs@[j].1@),
            forall|j: int| 0 <= j < i ==> ms[j].0 != name@,
            hint_of(ms, name@) == hint_of(ms.skip(i as int), name@),
        decreases attrs@.len() - i,
    {
        assert(ms.skip(i as int)[0] == ms[i as int]);
        assert(ms.skip(i as int).drop_first() =~= ms.skip(i as int + 1));
        i = i + 1;
    }
    if i < attrs.len() {
        assert(ms.skip(i as int)[0] == ms[i as int]);
        assert(hint_of(ms, name@) == Some(ms[i as int].1));
        Some(i)
    } else {
        assert(ms.skip(i as int).len() == 0);
        None
    }
}

/// The encoded entries of a row from column `i` on: each cell inferred
/// under its column's declared type, null values dropped unless kept.
pub open spec fn spec_encode_entries(
    allow_set: bool,
    allow_null: bool,
    header: Seq<Seq<char>>,
    row: Seq<Seq<char>>,
    attrs: Seq<(Seq<char>, Seq<char>)>,
    i: int,
) -> Seq<(Seq<char>, AttrModel)>
    decreases header.len() - i,
{
    if i < 0 || i >= header.len() || i >= row.len() {
        Seq::empty()
    } else {
        let a = spec_build_attr(allow_set, allow_null, hint_of(attrs, header[i]), row[i]);
        let rest = spec_encode_entries(allow_set, allow_null, header, row, attrs, i + 1);
        if allow_null || !(a is Null) {
            seq![(header[i], a)] + rest
        } else {
            rest
        }
    }
}

/// The write item of an encodable row.
pub open spec fn spec_encode_row(
    allow_set: bool,
    allow_null: bool,
    header: Seq<Seq<char>>,
    row: Seq<Seq<char>>,
    attrs: Seq<(Seq<char>, Seq<char>)>,
) -> Seq<(Seq<char>, AttrModel)> {
    spec_encode_entries(allow_set, allow_null, header, row, attrs, 0)
}

impl Parser {
    /// Encodes one row against the header and the table's declared key
    /// types. Fails exactly when the cell count differs from the column
    /// count.
    pub fn encode_row(
        &self,
        header: &Vec<String>,
        row: &Vec<String>,
        table_attrs: &Vec<(String, String)>,
    ) -> (r: Result<WriteItem, ArityError>)
        ensures
            r is Ok <==> header@.len() == row@.len(),
            r matches Ok(item) ==> item@ == spec_encode_row(
                self.allow_set,
                self.allow_null,
                texts_model(header@),
                texts_model(row@),
                pairs_model(table_attrs@),
            ),
            r matches Err(e) ==> e.header_len == header@.len() && e.row_len == row@.len(),
    {
        if header.len() != row.len() {
            return Err(ArityError { header_len: header.len(), row_len: row.len() });
        }
        let ghost hm = texts_model(header@);
        let ghost rm = texts_model(row@);
        let ghost am = pairs_model(table_attrs@);
        let mut entries: Vec<(String, AttrValue)> = Vec::new();
        proof {
            lemma_attr_entries_model_len(entries@);
        }
        let mut i: usize = 0;
        while i < header.len()
            invariant
                i <= header@.len(),
                header@.len() == row@.len(),
                hm == texts_model(header@),
                rm == texts_model(row@),
                am == pairs_model(table_attrs@),
                hm.len() == header@.len(),
                rm.len() == row@.len(),
                forall|j: int| 0 <= j < header@.len() ==> hm[j] == header@[j]@,
                forall|j: int| 0 <= j < row@.len() ==> rm[j] == row@[j]@,
                attr_entries_model(entries@) + spec_encode_entries(
                    self.allow_set,
                    self.allow_null,
                    hm,
                    rm,
                    am,
                    i as int,
                ) == spec_encode_row(self.allow_set, self.allow_null, hm, rm, am),
            decreases header@.len() - i,
        {
            let hint: Option<usize> = hint_lookup(table_attrs, &header[i]);
            let a: AttrValue = match hint {
                Some(h) => self.build_attr(Some(&table_attrs[h].1), row[i].clone()),
                None => self.build_attr(None, row[i].clone()),
            };
            assert(attr_model(a) == spec_build_attr(
                self.allow_set,
                self.allow_null,
                hint_of(am, hm[i as int]),
                rm[i as int],
            ));
            let keep: bool = self.allow_null || !matches!(&a, AttrValue::Null);
            if keep {
                let ghost before = entries@;
                let ghost ka = (header@[i as int]@, attr_model(a));
                entries.push((header[i].clone(), a));
                proof {
                    lemma_attr_entries_model_len(before);
                    lemma_attr_entries_model_len(entries@);
                    assert(attr_entries_model(entries@) =~= attr_entries_model(before).push(ka));
                }
            }
            i = i + 1;
        }
        assert(spec_encode_entries(self.allow_set, self.allow_null, hm, rm, am, i as int).len()
            == 0);
        assert(attr_entries_model(entries@) + spec_encode_entries(
            self.allow_set,
            self.allow_null,
            hm,
            rm,
            am,
            i as int,
        ) =~= attr_entries_model(entries@));
        Ok(WriteItem { entries })
    }
}

/// Encoding is a function of its inputs alone: two encodings of the same
/// header, row, declared types and configuration are identical, so encoding
/// a row twice yields bit-identical attribute structures.
pub proof fn lemma_encode_row_idempotent(
    allow_set: bool,
    allow_null: bool,
    header: Seq<Seq<char>>,
    row: Seq<Seq<char>>,
    attrs: Seq<(Seq<char>, Seq<char>)>,
    item1: Seq<(Seq<char>, AttrModel)>,
    item2: Seq<(Seq<char>, AttrModel)>,
)
    requires
        item1 == spec_encode_row(allow_set, allow_null, header, row, attrs),
        item2 == spec_encode_row(allow_set, allow_null, header, row, attrs),
    ensures
        item1 == item2,
{
}

/// Whether a row can be encoded against a header: the arities agree.
pub open spec fn encodable(header: Seq<Seq<char>>, row: Seq<Seq<char>>) -> bool {
    header.len() == row.len()
}

/// The split of a row stream: the write items of the encodable rows, each
/// with its source row's index, and the indices of the skipped rows.
pub struct EncodeOutcome {
    pub encoded: Vec<(usize, WriteItem)>,
    pub skipped: Vec<usize>,
}

impl Parser {
    /// Encodes a whole row stream in order. Every encodable row yields one
    /// item; every mismatched row is skipped and reported by index, and no
    /// item is ever made from it, so a mismatched row can never reach a
    /// batch.
    pub fn encode_rows(
        &self,
        header: &Vec<String>,
        rows: &Vec<Vec<String>>,
        table_attrs: &Vec<(String, String)>,
    ) -> (r: EncodeOutcome)
        ensures
            r.encoded@.len() + r.skipped@.len() == rows@.len(),
            forall|k: int|
                0 <= k < r.encoded@.len() ==> (#[trigger] r.encoded@[k]).0 < rows@.len()
                    && encodable(texts_model(header@), texts_model(rows@[r.encoded@[k].0 as int]@))
                    && r.encoded@[k].1@ == spec_encode_row(
                    self.allow_set,
                    self.allow_null,
                    texts_model(header@),
                    texts_model(rows@[r.encoded@[k].0 as int]@),
                    pairs_model(table_attrs@),
                ),
            forall|a: int, b: int|
                0 <= a < b < r.encoded@.len() ==> (#[trigger] r.encoded@[a]).0 < (
                #[trigger] r.encoded@[b]).0,
            forall|k: int|
                0 <= k < r.skipped@.len() ==> (#[trigger] r.skipped@[k]) < rows@.len()
                    && !encodable(texts_model(header@), texts_model(rows@[r.skipped@[k] as int]@)),
            forall|a: int, b: int|
                0 <= a < b < r.skipped@.len() ==> (#[trigger] r.skipped@[a]) < (
                #[trigger] r.skipped@[b]),
    {
        let mut encoded: Vec<(usize, WriteItem)> = Vec::new();
        let mut skipped: Vec<usize> = Vec::new();
        let mut i: usize = 0;
        while i < rows.len()
            invariant
                i <= rows@.len(),
                encoded@.len() + skipped@.len() == i,
                forall|k: int|
                    0 <= k < encoded@.len() ==> (#[trigger] encoded@[k]).0 < i && encodable(
                        texts_model(header@),
                        texts_model(rows@[encoded@[k].0 as int]@),
                    ) && encoded@[k].1@ == spec_encode_row(
                        self.allow_set,
                        self.allow_null,
                        texts_model(header@),
                        texts_model(rows@[encoded@[k].0 as int]@),
                        pairs_model(table_attrs@),
                    ),
                forall|a: int, b: int|
                    0 <= a < b < encoded@.len() ==> (#[trigger] encoded@[a]).0 < (
                    #[trigger] encoded@[b]).0,
                forall|k: int|
                    0 <= k < skipped@.len() ==> (#[trigger] skipped@[k]) < i && !encodable(
                        texts_model(header@),
                        texts_model(rows@[skipped@[k] as int]@),
                    ),
                forall|a: int, b: int|
                    0 <= a < b < skipped@.len() ==> (#[trigger] skipped@[a]) < (
                    #[trigger] skipped@[b]),
                encoded@.len() > 0 ==> encoded@[encoded@.len() - 1].0 < i,
                skipped@.len() > 0 ==> skipped@[skipped@.len() - 1] < i,
            decreases rows@.len() - i,
        {
            match self.encode_row(header, &rows[i], table_attrs) {
                Ok(item) => {
                    encoded.push((i, item));
                },
                Err(_) => {
                    skipped.push(i);
                },
            }
            i = i + 1;
        }
        EncodeOutcome { encoded, skipped }
    }
}


} // verus!
