//! Reading an Arrow string array.

use vstd::prelude::*;
use arrow::array::{Array, StringArray};
use crate::column::{StringEncoding, TEMP_CARDINALITY_DICTIONARY_ENCODING_LIMIT};
use crate::ingest::non_null_values;
use crate::value::opt_views;

verus! {

/// An Arrow array of optional strings: `arrow::array::StringArray`. What it
/// holds is known only through `array_values`; the field is open so that a
/// caller who has such an array can hand it over.
#[verifier::external_body]
pub struct StringArrayColumn {
    pub array: StringArray,
}

/// The values that an Arrow string array holds, slot by slot: `None` for a null slot.
pub uninterp spec fn array_values(arr: StringArrayColumn) -> Seq<Option<Seq<char>>>;

/// `Array::len` of `arrow`: the number of slots of the array.
#[verifier::external_body]
fn array_len(arr: &StringArrayColumn) -> (n: usize)
    ensures
        n == array_values(*arr).len(),
{
    arr.array.len()
}

/// `Array::is_null` of `arrow`: whether the slot `i` is null. It may panic
/// on an index beyond the array, so such an index is kept out.
#[verifier::external_body]
fn array_is_null(arr: &StringArrayColumn, i: usize) -> (b: bool)
    requires
        i < array_values(*arr).len(),
    ensures
        b == (array_values(*arr)[i as int] is None),
{
    arr.array.is_null(i)
}

/// `GenericByteArray::value` of `arrow`: the string in the slot `i`. It
/// panics on an index beyond the array, so such an index is kept out. Of a
/// null slot it returns a string of which nothing is claimed.
#[verifier::external_body]
fn array_value(arr: &StringArrayColumn, i: usize) -> (s: &str)
    requires
        i < array_values(*arr).len(),
    ensures
        array_values(*arr)[i as int] is Some ==> array_values(*arr)[i as int] == Some(s@),
{
    arr.array.value(i)
}

impl StringEncoding {
    /// The column of the values of an Arrow string array, in the encoding
    /// that the number of its distinct values calls for; `None` where the
    /// array has more slots than a column has row ids.
    pub fn from_string_array(arr: &StringArrayColumn) -> (r: Option<StringEncoding>)
        ensures
            r is None <==> array_values(*arr).len() > u32::MAX,
            match r {
                Some(c) => {
                    &&& c.wf()
                    &&& c@ == array_values(*arr)
                    &&& c.dictionary().to_set() == non_null_values(c@)
                    &&& c is Dictionary <==> c.dictionary().len()
                        > TEMP_CARDINALITY_DICTIONARY_ENCODING_LIMIT
                },
                None => true,
            },
    {
        let n = array_len(arr);
        if n > u32::MAX as usize {
            return None;
        }
        let ghost col = array_values(*arr);
        let mut v: Vec<Option<&str>> = Vec::with_capacity(n);
        let mut i: usize = 0;
        while i < n
            invariant
                i <= n,
                n == col.len(),
                col == array_values(*arr),
                v@.len() == i,
                opt_views(v@) == col.subrange(0, i as int),
            decreases n - i,
        {
            let ghost prev = v@;
            let item = if array_is_null(arr, i) {
                None
            } else {
                Some(array_value(arr, i))
            };
            v.push(item);
            assert(opt_views(v@) =~= opt_views(prev).push(col[i as int]));
            assert(opt_views(v@) =~= col.subrange(0, i + 1));
            i = i + 1;
        }
        assert(col.subrange(0, i as int) =~= col);
        Some(StringEncoding::encode(v.as_slice(), TEMP_CARDINALITY_DICTIONARY_ENCODING_LIMIT))
    }
}

} // verus!
