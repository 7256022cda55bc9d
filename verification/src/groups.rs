//! The two shapes in which a column hands out the rows of each value.

use vstd::prelude::*;
use either::Either;
use crate::dictionary::decode;
use crate::model::rows_with;
use crate::row_ids::RowIDs;

verus! {

/// `either::Either`, the sum of two types, as its crate defines it: a value
/// is `Left` of the first type or `Right` of the second.
#[verifier::external_type_specification]
#[verifier::reject_recursive_types(L)]
#[verifier::reject_recursive_types(R)]
pub struct ExEither<L, R>(Either<L, R>);

/// Whether `sets` groups the rows of `col` by encoded id under the dictionary
/// `d`: one set for each id from 0 to the size of the dictionary, the set at
/// place `e` holding the rows whose value is the one that `e` stands for.
pub open spec fn groups_rows(
    sets: Seq<Set<u32>>,
    col: Seq<Option<Seq<char>>>,
    d: Seq<Seq<char>>,
) -> bool {
    &&& sets.len() == d.len() + 1
    &&& forall|e: int| 0 <= e < sets.len() ==> #[trigger] sets[e] == rows_with(col, decode(d, e as u32))
}

/// The sets of a list of owned row-id sets.
pub open spec fn owned_sets(v: Seq<RowIDs>) -> Seq<Set<u32>> {
    Seq::new(v.len(), |e: int| v[e]@)
}

/// The sets of a list of borrowed row-id sets.
pub open spec fn borrowed_sets(v: Seq<&RowIDs>) -> Seq<Set<u32>> {
    Seq::new(v.len(), |e: int| v[e]@)
}

/// Whether every set of the list meets its invariant.
pub open spec fn all_wf(v: Seq<RowIDs>) -> bool {
    forall|e: int| 0 <= e < v.len() ==> (#[trigger] v[e]).wf()
}

/// Whether every borrowed set of the list meets its invariant.
pub open spec fn all_borrowed_wf(v: Seq<&RowIDs>) -> bool {
    forall|e: int| 0 <= e < v.len() ==> (#[trigger] v[e]).wf()
}

} // verus!
