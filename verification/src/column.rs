//! The string column: one contract over the two encodings.

use vstd::prelude::*;
use either::Either;
use crate::dictionary::{decode, sorted, StringSet};
use crate::groups::{all_borrowed_wf, all_wf, borrowed_sets, groups_rows, owned_sets};
use crate::model::{
    filter_rows, gather, has_non_null, has_null, has_other, ids_in_range, is_max_of, is_min_of,
    non_null_count, rows_in_range, saturated,
};
use crate::operator::Operator;
use crate::plain::Plain;
use crate::rle::RLE;
use crate::row_ids::RowIDs;
use crate::value::{opt_view, Value, Values};
use crate::value_set::ValueSet;

verus! {

/// The greatest number of distinct values that a column is run-length
/// encoded for. A column with more of them gets the plain encoding.
pub const TEMP_CARDINALITY_DICTIONARY_ENCODING_LIMIT: usize = 100_000;

/// A sealed column of optional strings in one of two encodings.
pub enum StringEncoding {
    RLEDictionary(RLE),
    Dictionary(Plain),
}

impl View for StringEncoding {
    type V = Seq<Option<Seq<char>>>;

    /// The logical column: the value of each row.
    open spec fn view(&self) -> Seq<Option<Seq<char>>> {
        match self {
            StringEncoding::RLEDictionary(c) => c@,
            StringEncoding::Dictionary(c) => c@,
        }
    }
}

impl StringEncoding {
    /// The dictionary's entries in order.
    pub open spec fn dictionary(&self) -> Seq<Seq<char>> {
        match self {
            StringEncoding::RLEDictionary(c) => c.dictionary(),
            StringEncoding::Dictionary(c) => c.dictionary(),
        }
    }

    /// The encoded id of each row.
    pub open spec fn ids(&self) -> Seq<u32> {
        match self {
            StringEncoding::RLEDictionary(c) => c.ids(),
            StringEncoding::Dictionary(c) => c.ids(),
        }
    }

    /// The representation invariant of the encoding at hand.
    pub open spec fn wf(&self) -> bool {
        match self {
            StringEncoding::RLEDictionary(c) => c.wf(),
            StringEncoding::Dictionary(c) => c.wf(),
        }
    }

    /// The bytes that the column holds.
    pub open spec fn spec_size(&self) -> nat {
        match self {
            StringEncoding::RLEDictionary(c) => c.spec_size(),
            StringEncoding::Dictionary(c) => c.spec_size(),
        }
    }

    /// What the invariant says of the dictionary and the ids.
    pub proof fn lemma_wf(&self)
        requires
            self.wf(),
        ensures
            sorted(self.dictionary()),
            self.dictionary().len() <= u32::MAX,
            self.ids().len() <= u32::MAX,
            self@.len() == self.ids().len(),
            ids_in_range(self.dictionary(), self.ids()),
    {
        match self {
            StringEncoding::RLEDictionary(c) => c.lemma_wf(),
            StringEncoding::Dictionary(c) => c.lemma_wf(),
        }
    }

    /// The bytes that the column holds, the dictionary included, up to the
    /// greatest 64-bit number.
    pub fn size(&self) -> (n: u64)
        requires
            self.wf(),
        ensures
            n == saturated(self.spec_size()),
    {
        match self {
            Self::RLEDictionary(enc) => enc.size(),
            Self::Dictionary(enc) => enc.size(),
        }
    }

    /// The number of rows.
    pub fn num_rows(&self) -> (n: u32)
        requires
            self.wf(),
        ensures
            n == self@.len(),
    {
        match self {
            Self::RLEDictionary(enc) => enc.num_rows(),
            Self::Dictionary(enc) => enc.num_rows(),
        }
    }

    /// The least and the greatest non-null value of the column, or `None`
    /// where every row is NULL.
    pub fn column_range(&self) -> (range: Option<(String, String)>)
        requires
            self.wf(),
        ensures
            match range {
                Some((lo, hi)) => is_min_of(self@, Some(lo@)) && is_max_of(self@, Some(hi@)),
                None => !has_non_null(self@),
            },
    {
        let (lo, hi) = match self {
            Self::RLEDictionary(enc) => (enc.column_min(), enc.column_max()),
            Self::Dictionary(enc) => (enc.column_min(), enc.column_max()),
        };
        proof {
            let col = self@;
            if opt_view(lo) is Some {
                let i = choose|i: int| 0 <= i < col.len() && col[i] == opt_view(lo);
                assert(col[i] is Some);
            }
            if opt_view(hi) is Some {
                let i = choose|i: int| 0 <= i < col.len() && col[i] == opt_view(hi);
                assert(col[i] is Some);
            }
        }
        match (lo, hi) {
            (Some(min), Some(max)) => Some((min.to_owned(), max.to_owned())),
            _ => None,
        }
    }

    /// Whether some row is NULL.
    pub fn contains_null(&self) -> (b: bool)
        requires
            self.wf(),
        ensures
            b == has_null(self@),
    {
        match self {
            Self::RLEDictionary(enc) => enc.contains_null(),
            Self::Dictionary(enc) => enc.contains_null(),
        }
    }

    /// Whether the encoding keeps the rows of each value at hand: the
    /// run-length encoding does, the plain one does not.
    pub fn has_pre_computed_row_id_sets(&self) -> (b: bool)
        ensures
            b == (self is RLEDictionary),
    {
        match &self {
            Self::RLEDictionary(c) => c.has_pre_computed_row_id_sets(),
            Self::Dictionary(c) => c.has_pre_computed_row_id_sets(),
        }
    }

    /// Whether some row is not NULL.
    pub fn has_any_non_null_value(&self) -> (b: bool)
        requires
            self.wf(),
        ensures
            b == has_non_null(self@),
    {
        match &self {
            Self::RLEDictionary(c) => c.has_any_non_null_value(),
            Self::Dictionary(c) => c.has_any_non_null_value(),
        }
    }

    /// Whether one of the rows `row_ids` is not NULL.
    pub fn has_non_null_value(&self, row_ids: &[u32]) -> (b: bool)
        requires
            self.wf(),
            rows_in_range(row_ids@, self@.len()),
        ensures
            b == has_non_null(gather(self@, row_ids@)),
    {
        match &self {
            Self::RLEDictionary(c) => c.has_non_null_value(row_ids),
            Self::Dictionary(c) => c.has_non_null_value(row_ids),
        }
    }

    /// Whether some row holds a non-null value that is not in `values`.
    pub fn has_other_non_null_values(&self, values: &StringSet) -> (b: bool)
        requires
            self.wf(),
            values.wf(),
        ensures
            b == has_other(self@, values@.to_set()),
    {
        match &self {
            Self::RLEDictionary(c) => c.has_other_non_null_values(values),
            Self::Dictionary(c) => c.has_other_non_null_values(values),
        }
    }

    /// The value of row `row_id`.
    pub fn value(&self, row_id: u32) -> (v: Value<'_>)
        requires
            self.wf(),
            row_id < self@.len(),
        ensures
            v@ == self@[row_id as int],
    {
        match &self {
            Self::RLEDictionary(c) => Value::from_option(c.value(row_id)),
            Self::Dictionary(c) => Value::from_option(c.value(row_id)),
        }
    }

    /// The values of the rows `row_ids`, in their order.
    pub fn values(&self, row_ids: &[u32]) -> (v: Values<'_>)
        requires
            self.wf(),
            rows_in_range(row_ids@, self@.len()),
        ensures
            v@ == gather(self@, row_ids@),
    {
        let v = match &self {
            Self::RLEDictionary(c) => Values::String(c.values(row_ids, Vec::new())),
            Self::Dictionary(c) => Values::String(c.values(row_ids, Vec::new())),
        };
        assert(v@ =~= gather(self@, row_ids@));
        v
    }

    /// The values of all rows, in row order.
    pub fn all_values(&self) -> (v: Values<'_>)
        requires
            self.wf(),
        ensures
            v@ == self@,
    {
        let v = match &self {
            Self::RLEDictionary(c) => Values::String(c.all_values(Vec::new())),
            Self::Dictionary(c) => Values::String(c.all_values(Vec::new())),
        };
        assert(v@ =~= self@);
        v
    }

    /// The value that the encoded id `encoded_id` stands for: NULL for 0 and
    /// for an id beyond the dictionary.
    pub fn decode_id(&self, encoded_id: u32) -> (v: Value<'_>)
        ensures
            v@ == decode(self.dictionary(), encoded_id),
    {
        match &self {
            Self::RLEDictionary(c) => Value::from_option(c.decode_id(encoded_id)),
            Self::Dictionary(c) => Value::from_option(c.decode_id(encoded_id)),
        }
    }

    /// The set of the values found at the rows `row_ids`, NULL among them.
    pub fn distinct_values(&self, row_ids: &[u32]) -> (out: ValueSet<'_>)
        requires
            self.wf(),
            rows_in_range(row_ids@, self@.len()),
        ensures
            out.wf(),
            out@ == gather(self@, row_ids@).to_set(),
    {
        let out = match &self {
            Self::RLEDictionary(c) => c.distinct_values(row_ids, ValueSet::new()),
            Self::Dictionary(c) => c.distinct_values(row_ids, ValueSet::new()),
        };
        assert(out@ =~= gather(self@, row_ids@).to_set());
        out
    }

    /// Adds to `dst` the rows whose value is not NULL and stands in the
    /// relation `op` to `value`.
    pub fn row_ids_filter(&self, op: &Operator, value: &str, dst: RowIDs) -> (out: RowIDs)
        requires
            self.wf(),
            dst.wf(),
        ensures
            out.wf(),
            out@ == dst@.union(filter_rows(self@, *op, value@)),
    {
        match &self {
            Self::RLEDictionary(c) => c.row_ids_filter(value, op, dst),
            Self::Dictionary(c) => c.row_ids_filter(value, op, dst),
        }
    }

    /// The least non-null value among the rows `row_ids`, or NULL where all
    /// of them are NULL.
    pub fn min(&self, row_ids: &[u32]) -> (v: Value<'_>)
        requires
            self.wf(),
            rows_in_range(row_ids@, self@.len()),
        ensures
            is_min_of(gather(self@, row_ids@), v@),
    {
        match &self {
            Self::RLEDictionary(c) => Value::from_option(c.min(row_ids)),
            Self::Dictionary(c) => Value::from_option(c.min(row_ids)),
        }
    }

    /// The greatest non-null value among the rows `row_ids`, or NULL where
    /// all of them are NULL.
    pub fn max(&self, row_ids: &[u32]) -> (v: Value<'_>)
        requires
            self.wf(),
            rows_in_range(row_ids@, self@.len()),
        ensures
            is_max_of(gather(self@, row_ids@), v@),
    {
        match &self {
            Self::RLEDictionary(c) => Value::from_option(c.max(row_ids)),
            Self::Dictionary(c) => Value::from_option(c.max(row_ids)),
        }
    }

    /// The number of the rows `row_ids` that are not NULL.
    pub fn count(&self, row_ids: &[u32]) -> (n: u32)
        requires
            self.wf(),
            rows_in_range(row_ids@, self@.len()),
            row_ids@.len() <= u32::MAX,
        ensures
            n == non_null_count(gather(self@, row_ids@)),
    {
        match &self {
            Self::RLEDictionary(c) => c.count(row_ids),
            Self::Dictionary(c) => c.count(row_ids),
        }
    }

    /// Appends to `dst` the encoded id of each of the rows `row_ids`, in their order.
    pub fn encoded_values(&self, row_ids: &[u32], dst: Vec<u32>) -> (out: Vec<u32>)
        requires
            self.wf(),
            rows_in_range(row_ids@, self@.len()),
        ensures
            out@ == dst@ + gather(self.ids(), row_ids@),
    {
        match &self {
            Self::RLEDictionary(c) => c.encoded_values(row_ids, dst),
            Self::Dictionary(c) => c.encoded_values(row_ids, dst),
        }
    }

    /// Appends to `dst` the encoded id of every row, in row order.
    pub fn all_encoded_values(&self, dst: Vec<u32>) -> (out: Vec<u32>)
        ensures
            out@ == dst@ + self.ids(),
    {
        match &self {
            Self::RLEDictionary(c) => c.all_encoded_values(dst),
            Self::Dictionary(c) => c.all_encoded_values(dst),
        }
    }

    /// The rows of each encoded id, the NULL rows at place 0. The run-length
    /// encoding lends the sets of its index (`Left`); the plain encoding
    /// computes them (`Right`).
    pub fn group_row_ids(&self) -> (g: Either<Vec<&RowIDs>, Vec<RowIDs>>)
        requires
            self.wf(),
        ensures
            match g {
                Either::Left(sets) => self is RLEDictionary && all_borrowed_wf(sets@)
                    && groups_rows(borrowed_sets(sets@), self@, self.dictionary()),
                Either::Right(sets) => self is Dictionary && all_wf(sets@) && groups_rows(
                    owned_sets(sets@),
                    self@,
                    self.dictionary(),
                ),
            },
    {
        match self {
            Self::RLEDictionary(enc) => Either::Left(enc.group_row_ids()),
            Self::Dictionary(enc) => Either::Right(enc.group_row_ids()),
        }
    }

    /// The dictionary's entries in order: the entry at place `i` has the
    /// encoded id `i + 1`.
    pub fn dictionary_entries(&self) -> (v: Vec<&str>)
        ensures
            v@.len() == self.dictionary().len(),
            forall|i: int| 0 <= i < v@.len() ==> (#[trigger] v@[i])@ == self.dictionary()[i],
    {
        match self {
            Self::RLEDictionary(c) => c.dictionary_entries(),
            Self::Dictionary(c) => c.dictionary_entries(),
        }
    }
}

} // verus!
