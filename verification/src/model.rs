//! The mathematical model of a column: a sequence of optional strings, and
//! what each query means on it.

use vstd::prelude::*;
use crate::dictionary::{decode, sorted};
use crate::lex::{lemma_str_lt_asymmetric, lemma_str_lt_irreflexive, lemma_str_lt_total, str_lt};
use crate::operator::Operator;

verus! {

/// The logical column that the encoded ids `ids` stand for under the dictionary `d`.
pub open spec fn decode_all(d: Seq<Seq<char>>, ids: Seq<u32>) -> Seq<Option<Seq<char>>> {
    Seq::new(ids.len(), |r: int| decode(d, ids[r]))
}

/// Whether every id is 0 or the id of a dictionary entry.
pub open spec fn ids_in_range(d: Seq<Seq<char>>, ids: Seq<u32>) -> bool {
    forall|r: int| 0 <= r < ids.len() ==> #[trigger] ids[r] <= d.len()
}

/// Whether every row id is a row of a column of `n` rows.
pub open spec fn rows_in_range(rows: Seq<u32>, n: nat) -> bool {
    forall|i: int| 0 <= i < rows.len() ==> #[trigger] rows[i] < n
}

/// The values of `col` at the rows `rows`, in the order of `rows`.
pub open spec fn gather<T>(col: Seq<T>, rows: Seq<u32>) -> Seq<T> {
    Seq::new(rows.len(), |i: int| col[rows[i] as int])
}

/// The number of non-null values in `col`.
pub open spec fn non_null_count(col: Seq<Option<Seq<char>>>) -> nat
    decreases col.len(),
{
    if col.len() == 0 {
        0
    } else {
        non_null_count(col.drop_last()) + if col.last() is Some {
            1nat
        } else {
            0nat
        }
    }
}

/// Whether `col` holds a NULL.
pub open spec fn has_null(col: Seq<Option<Seq<char>>>) -> bool {
    exists|r: int| 0 <= r < col.len() && #[trigger] col[r] is None
}

/// Whether `col` holds a non-null value.
pub open spec fn has_non_null(col: Seq<Option<Seq<char>>>) -> bool {
    exists|r: int| 0 <= r < col.len() && #[trigger] col[r] is Some
}

/// Whether `m` is the least non-null value of `col`, or NULL where `col` holds none.
pub open spec fn is_min_of(col: Seq<Option<Seq<char>>>, m: Option<Seq<char>>) -> bool {
    match m {
        None => !has_non_null(col),
        Some(s) => col.contains(Some(s)) && forall|r: int|
            0 <= r < col.len() && #[trigger] col[r] is Some ==> !str_lt(col[r]->0, s),
    }
}

/// Whether `m` is the greatest non-null value of `col`, or NULL where `col` holds none.
pub open spec fn is_max_of(col: Seq<Option<Seq<char>>>, m: Option<Seq<char>>) -> bool {
    match m {
        None => !has_non_null(col),
        Some(s) => col.contains(Some(s)) && forall|r: int|
            0 <= r < col.len() && #[trigger] col[r] is Some ==> !str_lt(s, col[r]->0),
    }
}

/// The rows of `col` that a filter with `op` and `literal` selects.
pub open spec fn filter_rows(col: Seq<Option<Seq<char>>>, op: Operator, literal: Seq<char>) -> Set<
    u32,
> {
    Set::new(|r: u32| r < col.len() && op.selects(col[r as int], literal))
}

/// The rows of `col` that hold `value`.
pub open spec fn rows_with(col: Seq<Option<Seq<char>>>, value: Option<Seq<char>>) -> Set<u32> {
    Set::new(|r: u32| r < col.len() && col[r as int] == value)
}

/// The rows whose encoded id is `e`.
pub open spec fn rows_with_id(ids: Seq<u32>, e: u32) -> Set<u32> {
    Set::new(|r: u32| r < ids.len() && ids[r as int] == e)
}

/// The bytes that the strings of `d` take together.
pub open spec fn total_bytes(d: Seq<Seq<char>>) -> nat
    decreases d.len(),
{
    if d.len() == 0 {
        0
    } else {
        total_bytes(d.drop_last()) + vstd::utf8::encode_utf8(d.last()).len()
    }
}

/// `n`, or the greatest 64-bit number where `n` is beyond it.
pub open spec fn saturated(n: nat) -> u64 {
    if n <= u64::MAX {
        n as u64
    } else {
        u64::MAX
    }
}

/// Whether `col` holds a non-null value that is not among `values`.
pub open spec fn has_other(col: Seq<Option<Seq<char>>>, values: Set<Seq<char>>) -> bool {
    exists|r: int| 0 <= r < col.len() && #[trigger] col[r] is Some && !values.contains(col[r]->0)
}

/// Whether `lo` is the least non-zero id among `ids`, or 0 where every id is 0.
pub open spec fn least_id(ids: Seq<u32>, lo: u32) -> bool {
    &&& lo == 0 <==> forall|r: int| 0 <= r < ids.len() ==> #[trigger] ids[r] == 0
    &&& lo > 0 ==> ids.contains(lo)
    &&& forall|r: int| 0 <= r < ids.len() && #[trigger] ids[r] != 0 ==> lo <= ids[r]
}

/// Whether `hi` is the greatest non-zero id among `ids`, or 0 where every id is 0.
pub open spec fn greatest_id(ids: Seq<u32>, hi: u32) -> bool {
    &&& hi > 0 ==> ids.contains(hi)
    &&& forall|r: int| 0 <= r < ids.len() ==> #[trigger] ids[r] <= hi
}

/// Whether `lo` and `hi` are the least and the greatest non-zero id among
/// `ids`, or both 0 where every id is 0.
pub open spec fn id_extremes(ids: Seq<u32>, lo: u32, hi: u32) -> bool {
    least_id(ids, lo) && greatest_id(ids, hi)
}

/// The least id stands for the least value.
pub proof fn lemma_least_id(d: Seq<Seq<char>>, ids: Seq<u32>, lo: u32)
    requires
        sorted(d),
        ids_in_range(d, ids),
        least_id(ids, lo),
    ensures
        is_min_of(decode_all(d, ids), decode(d, lo)),
{
    let col = decode_all(d, ids);
    if lo > 0 {
        let i = choose|i: int| 0 <= i < ids.len() && ids[i] == lo;
        assert(col[i] == decode(d, lo));
        assert forall|r: int| 0 <= r < col.len() && #[trigger] col[r] is Some implies !str_lt(
            col[r]->0,
            decode(d, lo)->0,
        ) by {
            assert(ids[r] != 0);
            lemma_id_order(d, ids[r], lo);
        }
    } else {
        assert forall|r: int| 0 <= r < col.len() implies !(#[trigger] col[r] is Some) by {
            assert(ids[r] == 0);
        }
    }
}

/// The greatest id stands for the greatest value.
pub proof fn lemma_greatest_id(d: Seq<Seq<char>>, ids: Seq<u32>, hi: u32)
    requires
        sorted(d),
        ids_in_range(d, ids),
        greatest_id(ids, hi),
    ensures
        is_max_of(decode_all(d, ids), decode(d, hi)),
{
    let col = decode_all(d, ids);
    if hi > 0 {
        let i = choose|i: int| 0 <= i < ids.len() && ids[i] == hi;
        assert(col[i] == decode(d, hi));
        assert forall|r: int| 0 <= r < col.len() && #[trigger] col[r] is Some implies !str_lt(
            decode(d, hi)->0,
            col[r]->0,
        ) by {
            assert(ids[r] != 0);
            assert(ids[r] <= hi);
            lemma_id_order(d, hi, ids[r]);
        }
    } else {
        assert forall|r: int| 0 <= r < col.len() implies !(#[trigger] col[r] is Some) by {
            assert(ids[r] <= 0);
        }
    }
}

/// Gathering rows and decoding ids can be done in either order.
pub proof fn lemma_gather_decode(d: Seq<Seq<char>>, ids: Seq<u32>, rows: Seq<u32>)
    requires
        rows_in_range(rows, ids.len()),
    ensures
        gather(decode_all(d, ids), rows) == decode_all(d, gather(ids, rows)),
        ids_in_range(d, ids) ==> ids_in_range(d, gather(ids, rows)),
{
    assert(gather(decode_all(d, ids), rows) =~= decode_all(d, gather(ids, rows)));
}

/// `n` copies of `v`.
pub open spec fn repeat<T>(v: T, n: nat) -> Seq<T> {
    Seq::new(n, |i: int| v)
}

/// The count of a column that grew by one value.
pub proof fn lemma_non_null_count_push(col: Seq<Option<Seq<char>>>, v: Option<Seq<char>>)
    ensures
        non_null_count(col.push(v)) == non_null_count(col) + if v is Some {
            1nat
        } else {
            0nat
        },
{
    assert(col.push(v).drop_last() =~= col);
}

/// The count is at most the length; it is the length exactly where no value is NULL,
/// and zero exactly where every value is.
pub proof fn lemma_non_null_count_bounds(col: Seq<Option<Seq<char>>>)
    ensures
        non_null_count(col) <= col.len(),
        non_null_count(col) < col.len() <==> has_null(col),
        non_null_count(col) > 0 <==> has_non_null(col),
    decreases col.len(),
{
    if col.len() > 0 {
        let init = col.drop_last();
        lemma_non_null_count_bounds(init);
        if has_null(init) {
            let r = choose|r: int| 0 <= r < init.len() && #[trigger] init[r] is None;
            assert(col[r] is None);
        }
        if has_non_null(init) {
            let r = choose|r: int| 0 <= r < init.len() && #[trigger] init[r] is Some;
            assert(col[r] is Some);
        }
        if has_null(col) {
            let r = choose|r: int| 0 <= r < col.len() && #[trigger] col[r] is None;
            if r < init.len() {
                assert(init[r] is None);
            }
        }
        if has_non_null(col) {
            let r = choose|r: int| 0 <= r < col.len() && #[trigger] col[r] is Some;
            if r < init.len() {
                assert(init[r] is Some);
            }
        }
        if col.last() is None {
            assert(col[col.len() - 1] is None);
        } else {
            assert(col[col.len() - 1] is Some);
        }
    }
}

/// A column has at most one least value.
pub proof fn lemma_min_unique(
    col: Seq<Option<Seq<char>>>,
    a: Option<Seq<char>>,
    b: Option<Seq<char>>,
)
    requires
        is_min_of(col, a),
        is_min_of(col, b),
    ensures
        a == b,
{
    if a is Some && b is Some {
        let i = choose|i: int| 0 <= i < col.len() && col[i] == a;
        let j = choose|j: int| 0 <= j < col.len() && col[j] == b;
        assert(col[i] is Some && col[j] is Some);
        lemma_str_lt_total(a->0, b->0);
    } else if a is Some {
        let i = choose|i: int| 0 <= i < col.len() && col[i] == a;
        assert(col[i] is Some);
    } else if b is Some {
        let j = choose|j: int| 0 <= j < col.len() && col[j] == b;
        assert(col[j] is Some);
    }
}

/// A column has at most one greatest value.
pub proof fn lemma_max_unique(
    col: Seq<Option<Seq<char>>>,
    a: Option<Seq<char>>,
    b: Option<Seq<char>>,
)
    requires
        is_max_of(col, a),
        is_max_of(col, b),
    ensures
        a == b,
{
    if a is Some && b is Some {
        let i = choose|i: int| 0 <= i < col.len() && col[i] == a;
        let j = choose|j: int| 0 <= j < col.len() && col[j] == b;
        assert(col[i] is Some && col[j] is Some);
        lemma_str_lt_total(a->0, b->0);
    } else if a is Some {
        let i = choose|i: int| 0 <= i < col.len() && col[i] == a;
        assert(col[i] is Some);
    } else if b is Some {
        let j = choose|j: int| 0 <= j < col.len() && col[j] == b;
        assert(col[j] is Some);
    }
}

/// Under a sorted dictionary, two ids of entries stand as their strings do.
pub proof fn lemma_id_order(d: Seq<Seq<char>>, e: u32, f: u32)
    requires
        sorted(d),
        1 <= e <= d.len(),
        1 <= f <= d.len(),
    ensures
        e < f <==> str_lt(decode(d, e)->0, decode(d, f)->0),
        e == f <==> decode(d, e) == decode(d, f),
{
    if e < f {
        assert(str_lt(d[e - 1], d[f - 1]));
        lemma_str_lt_irreflexive(d[e - 1]);
    } else if f < e {
        assert(str_lt(d[f - 1], d[e - 1]));
        lemma_str_lt_asymmetric(d[f - 1], d[e - 1]);
        lemma_str_lt_irreflexive(d[e - 1]);
    } else {
        lemma_str_lt_irreflexive(d[e - 1]);
    }
}

/// Under a sorted dictionary, the rows with the id `e` are the rows that hold
/// the value that `e` stands for.
pub proof fn lemma_rows_with_id(d: Seq<Seq<char>>, ids: Seq<u32>, e: u32)
    requires
        sorted(d),
        ids_in_range(d, ids),
        e <= d.len(),
    ensures
        rows_with_id(ids, e) == rows_with(decode_all(d, ids), decode(d, e)),
{
    let col = decode_all(d, ids);
    assert forall|r: u32| rows_with_id(ids, e).contains(r) <==> rows_with(
        col,
        decode(d, e),
    ).contains(r) by {
        if r < ids.len() {
            let f = ids[r as int];
            assert(col[r as int] == decode(d, f));
            if e >= 1 && f >= 1 {
                lemma_id_order(d, e, f);
            }
        }
    }
    assert(rows_with_id(ids, e) =~= rows_with(col, decode(d, e)));
}

/// The count of a column that grew by `n` copies of one value.
pub proof fn lemma_non_null_count_repeat(col: Seq<Option<Seq<char>>>, v: Option<Seq<char>>, n: nat)
    ensures
        non_null_count(col + repeat(v, n)) == non_null_count(col) + if v is Some {
            n
        } else {
            0
        },
    decreases n,
{
    if n == 0 {
        assert(col + repeat(v, 0) =~= col);
    } else {
        let m = (n - 1) as nat;
        lemma_non_null_count_repeat(col, v, m);
        assert(col + repeat(v, n) =~= (col + repeat(v, m)).push(v));
        lemma_non_null_count_push(col + repeat(v, m), v);
    }
}

/// The least and greatest id of a sequence that grew by copies of one id.
pub proof fn lemma_id_extremes_repeat(ids: Seq<u32>, lo: u32, hi: u32, e: u32, n: nat)
    requires
        id_extremes(ids, lo, hi),
        n > 0,
    ensures
        id_extremes(
            ids + repeat(e, n),
            if e != 0 && (lo == 0 || e < lo) {
                e
            } else {
                lo
            },
            if e > hi {
                e
            } else {
                hi
            },
        ),
{
    let all = ids + repeat(e, n);
    let lo2 = if e != 0 && (lo == 0 || e < lo) {
        e
    } else {
        lo
    };
    let hi2 = if e > hi {
        e
    } else {
        hi
    };
    assert(all[ids.len() as int] == e);
    assert forall|r: int| 0 <= r < ids.len() implies all[r] == #[trigger] ids[r] by {}
    if lo > 0 {
        let i = choose|i: int| 0 <= i < ids.len() && ids[i] == lo;
        assert(all[i] == lo);
    }
    if hi > 0 {
        let j = choose|j: int| 0 <= j < ids.len() && ids[j] == hi;
        assert(all[j] == hi);
    }
    assert forall|r: int| 0 <= r < all.len() implies #[trigger] all[r] <= hi2 && (all[r] != 0
        ==> lo2 <= all[r]) by {
        if r < ids.len() {
            assert(ids[r] <= hi);
        }
    }
    if lo2 == 0 {
        assert forall|r: int| 0 <= r < all.len() implies #[trigger] all[r] == 0 by {
            if r < ids.len() {
                assert(ids[r] == 0);
            }
        }
    }
}

/// The rows with the id `e` in a sequence that grew by copies of one id.
pub proof fn lemma_rows_with_id_repeat(ids: Seq<u32>, id: u32, n: nat, e: u32)
    requires
        ids.len() + n <= u32::MAX,
    ensures
        rows_with_id(ids + repeat(id, n), e) == if e == id {
            rows_with_id(ids, e).union(Set::new(|r: u32| ids.len() <= r < ids.len() + n))
        } else {
            rows_with_id(ids, e)
        },
{
    let all = ids + repeat(id, n);
    let fresh = Set::new(|r: u32| ids.len() <= r < ids.len() + n);
    assert forall|r: u32| rows_with_id(all, e).contains(r) <==> (rows_with_id(ids, e).contains(r)
        || (e == id && fresh.contains(r))) by {
        if r < ids.len() {
            assert(all[r as int] == ids[r as int]);
        } else if r < all.len() {
            assert(all[r as int] == id);
        }
    }
    if e == id {
        assert(rows_with_id(all, e) =~= rows_with_id(ids, e).union(fresh));
    } else {
        assert(rows_with_id(all, e) =~= rows_with_id(ids, e));
    }
}

} // verus!
