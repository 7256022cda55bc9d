//! What holds of every column, stated over the model and proved.

use vstd::prelude::*;
use crate::column::StringEncoding;
use crate::dictionary::{decode, encoded_id, lemma_encoded_id_at, lemma_sorted_distinct, sorted};
use crate::ingest::non_null_values;
use crate::lex::{
    lemma_str_lt_asymmetric, lemma_str_lt_irreflexive, lemma_str_lt_transitive, str_lt,
};
use crate::model::{
    filter_rows, gather, is_max_of, is_min_of, lemma_id_order, lemma_max_unique, lemma_min_unique,
    non_null_count, rows_with_id,
};
use crate::operator::Operator;
use crate::rle::RLE;
use crate::runs::{expand, total_len};
use crate::value::{opt_view, opt_views};

verus! {

/// The least non-null value of `col` as a scan from the first row to the
/// last finds it.
pub open spec fn scan_min(col: Seq<Option<Seq<char>>>) -> Option<Seq<char>>
    decreases col.len(),
{
    if col.len() == 0 {
        None
    } else {
        match (scan_min(col.drop_last()), col.last()) {
            (None, v) => v,
            (Some(m), None) => Some(m),
            (Some(m), Some(v)) => if str_lt(v, m) {
                Some(v)
            } else {
                Some(m)
            },
        }
    }
}

/// The greatest non-null value of `col` as a scan from the first row to the
/// last finds it.
pub open spec fn scan_max(col: Seq<Option<Seq<char>>>) -> Option<Seq<char>>
    decreases col.len(),
{
    if col.len() == 0 {
        None
    } else {
        match (scan_max(col.drop_last()), col.last()) {
            (None, v) => v,
            (Some(m), None) => Some(m),
            (Some(m), Some(v)) => if str_lt(m, v) {
                Some(v)
            } else {
                Some(m)
            },
        }
    }
}

/// The scan finds the least value.
pub proof fn lemma_scan_min(col: Seq<Option<Seq<char>>>)
    ensures
        is_min_of(col, scan_min(col)),
    decreases col.len(),
{
    if col.len() > 0 {
        let init = col.drop_last();
        let last = col.len() - 1;
        lemma_scan_min(init);
        let m0 = scan_min(init);
        let m = scan_min(col);
        assert forall|r: int| 0 <= r < init.len() implies init[r] == col[r] by {}
        match m {
            None => {
                assert forall|r: int| 0 <= r < col.len() implies !(#[trigger] col[r] is Some) by {
                    if r < last {
                        assert(init[r] is None);
                    }
                }
            },
            Some(s) => {
                if m0 == Some(s) {
                    let i = choose|i: int| 0 <= i < init.len() && init[i] == Some(s);
                    assert(col[i] == Some(s));
                } else {
                    assert(col[last] == Some(s));
                }
                assert forall|r: int| 0 <= r < col.len() && #[trigger] col[r] is Some implies !str_lt(
                    col[r]->0,
                    s,
                ) by {
                    lemma_str_lt_irreflexive(s);
                    if r < last {
                        assert(init[r] is Some);
                        if m0 != Some(s) {
                            // the last value is below the least of the rest
                            assert(!str_lt(init[r]->0, m0->0));
                            if str_lt(col[r]->0, s) {
                                lemma_str_lt_transitive(col[r]->0, s, m0->0);
                            }
                        }
                    } else if m0 == Some(s) && col[last] != Some(s) {
                        assert(!str_lt(col[last]->0, s));
                    }
                }
            },
        }
    }
}

/// The scan finds the greatest value.
pub proof fn lemma_scan_max(col: Seq<Option<Seq<char>>>)
    ensures
        is_max_of(col, scan_max(col)),
    decreases col.len(),
{
    if col.len() > 0 {
        let init = col.drop_last();
        let last = col.len() - 1;
        lemma_scan_max(init);
        let m0 = scan_max(init);
        let m = scan_max(col);
        assert forall|r: int| 0 <= r < init.len() implies init[r] == col[r] by {}
        match m {
            None => {
                assert forall|r: int| 0 <= r < col.len() implies !(#[trigger] col[r] is Some) by {
                    if r < last {
                        assert(init[r] is None);
                    }
                }
            },
            Some(s) => {
                if m0 == Some(s) {
                    let i = choose|i: int| 0 <= i < init.len() && init[i] == Some(s);
                    assert(col[i] == Some(s));
                } else {
                    assert(col[last] == Some(s));
                }
                assert forall|r: int| 0 <= r < col.len() && #[trigger] col[r] is Some implies !str_lt(
                    s,
                    col[r]->0,
                ) by {
                    lemma_str_lt_irreflexive(s);
                    if r < last {
                        assert(init[r] is Some);
                        if m0 != Some(s) {
                            assert(!str_lt(m0->0, init[r]->0));
                            if str_lt(s, col[r]->0) {
                                lemma_str_lt_transitive(m0->0, s, col[r]->0);
                            }
                        }
                    } else if m0 == Some(s) && col[last] != Some(s) {
                        assert(!str_lt(s, col[last]->0));
                    }
                }
            },
        }
    }
}

/// Two sorted lists with the same elements are the same list.
pub proof fn lemma_sorted_unique(a: Seq<Seq<char>>, b: Seq<Seq<char>>)
    requires
        sorted(a),
        sorted(b),
        a.to_set() == b.to_set(),
    ensures
        a == b,
    decreases a.len(),
{
    if a.len() == 0 {
        if b.len() > 0 {
            assert(b.to_set().contains(b[0]));
            assert(a.to_set().contains(b[0]));
        }
        assert(a =~= b);
    } else {
        let x = a.last();
        assert(a.to_set().contains(x));
        assert(b.to_set().contains(x));
        let j = choose|j: int| 0 <= j < b.len() && b[j] == x;
        let y = b.last();
        assert(b.to_set().contains(y));
        assert(a.to_set().contains(y));
        let i = choose|i: int| 0 <= i < a.len() && a[i] == y;
        // x is at most y, and y is at most x
        if j < b.len() - 1 {
            assert(str_lt(b[j], b[b.len() - 1]));
            if i < a.len() - 1 {
                assert(str_lt(a[i], a[a.len() - 1]));
                lemma_str_lt_asymmetric(x, y);
            } else {
                lemma_str_lt_irreflexive(x);
            }
        }
        assert(x == y);
        lemma_sorted_distinct(a);
        lemma_sorted_distinct(b);
        let a0 = a.drop_last();
        let b0 = b.drop_last();
        assert forall|s: Seq<char>| a0.to_set().contains(s) <==> b0.to_set().contains(s) by {
            if a0.to_set().contains(s) {
                let k = choose|k: int| 0 <= k < a0.len() && a0[k] == s;
                assert(a[k] == s);
                assert(a.to_set().contains(s));
                assert(b.to_set().contains(s));
                let m = choose|m: int| 0 <= m < b.len() && b[m] == s;
                assert(m < b.len() - 1);
                assert(b0[m] == s);
            }
            if b0.to_set().contains(s) {
                let k = choose|k: int| 0 <= k < b0.len() && b0[k] == s;
                assert(b[k] == s);
                assert(b.to_set().contains(s));
                assert(a.to_set().contains(s));
                let m = choose|m: int| 0 <= m < a.len() && a[m] == s;
                assert(m < a.len() - 1);
                assert(a0[m] == s);
            }
        }
        assert(a0.to_set() =~= b0.to_set());
        lemma_sorted_unique(a0, b0);
        assert(a =~= a0.push(x));
        assert(b =~= b0.push(y));
    }
}

/// Round trip: a column built from a list of values holds, at every row,
/// the value that the list has at that place, NULL for NULL.
pub proof fn law_round_trip(col: StringEncoding, input: Seq<Option<&str>>, r: int)
    requires
        col@ == opt_views(input),
        0 <= r < input.len(),
    ensures
        col@.len() == input.len(),
        col@[r] == opt_view(input[r]),
{
}

/// Encoded and logical values agree: decoding the encoded id of a row
/// gives the value of that row.
pub proof fn law_encoded_logical(col: StringEncoding, r: u32)
    requires
        col.wf(),
        r < col@.len(),
    ensures
        gather(col.ids(), seq![r]).len() == 1,
        decode(col.dictionary(), gather(col.ids(), seq![r])[0]) == col@[r as int],
{
    col.lemma_wf();
}

/// Dictionary order: of two entries of a sorted dictionary, the lesser
/// string has the lesser encoded id.
pub proof fn law_dictionary_order(d: Seq<Seq<char>>, u: Seq<char>, v: Seq<char>)
    requires
        sorted(d),
        d.contains(u),
        d.contains(v),
        str_lt(u, v),
    ensures
        1 <= encoded_id(d, u) < encoded_id(d, v) <= d.len(),
{
    let i = choose|i: int| 0 <= i < d.len() && d[i] == u;
    let j = choose|j: int| 0 <= j < d.len() && d[j] == v;
    lemma_encoded_id_at(d, i);
    lemma_encoded_id_at(d, j);
    if j < i {
        assert(str_lt(d[j], d[i]));
        lemma_str_lt_asymmetric(u, v);
    } else if i == j {
        lemma_str_lt_irreflexive(u);
    }
}

/// Run-length well-formedness: the run lengths sum to the number of rows,
/// every run has a row, and no two neighbouring runs share an id.
pub proof fn law_runs_well_formed(col: RLE)
    requires
        col.wf(),
    ensures
        total_len(col.runs()) == col@.len(),
        forall|k: int| 0 <= k < col.runs().len() ==> (#[trigger] col.runs()[k]).1 >= 1,
        forall|k: int|
            0 <= k < col.runs().len() - 1 ==> (#[trigger] col.runs()[k]).0 != col.runs()[k + 1].0,
{
    col.lemma_wf();
}

/// Inverted index agreement: for every encoded id, the index holds
/// exactly the rows that the runs give that id.
pub proof fn law_index_agrees(col: RLE, e: u32, r: u32)
    requires
        col.wf(),
        e <= col.dictionary().len(),
    ensures
        col.index()[e as int].contains(r) <==> (r < col@.len() && expand(col.runs())[r as int]
            == e),
{
    col.lemma_wf();
    assert(col.index()[e as int] == rows_with_id(col.ids(), e));
}

/// Filter and scan agree: a filter selects a row exactly where the row's
/// value is not NULL and stands in the relation to the literal.
pub proof fn law_filter_scan(col: Seq<Option<Seq<char>>>, op: Operator, literal: Seq<char>, r: u32)
    ensures
        filter_rows(col, op, literal).contains(r) <==> (r < col.len() && col[r as int] is Some
            && op.holds(col[r as int]->0, literal)),
{
}

/// Aggregates agree with a scan: what meets the contract of `min` is the
/// least value that a scan of the rows finds, what meets that of `max` the
/// greatest, and the count is the count of a scan.
pub proof fn law_aggregates_scan(
    col: Seq<Option<Seq<char>>>,
    rows: Seq<u32>,
    least: Option<Seq<char>>,
    greatest: Option<Seq<char>>,
)
    requires
        is_min_of(gather(col, rows), least),
        is_max_of(gather(col, rows), greatest),
    ensures
        least == scan_min(gather(col, rows)),
        greatest == scan_max(gather(col, rows)),
        least is None <==> non_null_count(gather(col, rows)) == 0,
        greatest is None <==> least is None,
{
    let g = gather(col, rows);
    lemma_scan_min(g);
    lemma_scan_max(g);
    lemma_min_unique(g, least, scan_min(g));
    lemma_max_unique(g, greatest, scan_max(g));
    crate::model::lemma_non_null_count_bounds(g);
    if least is Some {
        let i = choose|i: int| 0 <= i < g.len() && g[i] == least;
        assert(g[i] is Some);
    }
    if greatest is Some {
        let i = choose|i: int| 0 <= i < g.len() && g[i] == greatest;
        assert(g[i] is Some);
    }
}

/// Encoding equivalence: two columns built from the same values, in
/// whichever encodings, have the same dictionary and give every row the
/// same encoded id. The contract of every query but `size`,
/// `has_pre_computed_row_id_sets` and the shape of `group_row_ids` is
/// stated over the values, the dictionary and the ids alone.
pub proof fn law_encoding_equivalence(a: StringEncoding, b: StringEncoding)
    requires
        a.wf(),
        b.wf(),
        a@ == b@,
        a.dictionary().to_set() == non_null_values(a@),
        b.dictionary().to_set() == non_null_values(b@),
    ensures
        a.dictionary() == b.dictionary(),
        a.ids() == b.ids(),
{
    a.lemma_wf();
    b.lemma_wf();
    lemma_sorted_unique(a.dictionary(), b.dictionary());
    let d = a.dictionary();
    assert forall|r: int| 0 <= r < a.ids().len() implies a.ids()[r] == b.ids()[r] by {
        let e = a.ids()[r];
        let f = b.ids()[r];
        assert(a@[r] == decode(d, e));
        assert(b@[r] == decode(d, f));
        if e >= 1 && f >= 1 {
            lemma_id_order(d, e, f);
        }
    }
    assert(a.ids() =~= b.ids());
}

/// Buffer reuse: appending to a filled buffer leaves what was there in
/// front, followed by what appending to an empty buffer gives.
pub proof fn law_buffer_reuse<T>(dst: Seq<T>, fresh: Seq<T>)
    ensures
        (dst + fresh).subrange(0, dst.len() as int) == dst,
        (dst + fresh).subrange(dst.len() as int, (dst + fresh).len() as int) == Seq::<T>::empty()
            + fresh,
{
    assert((dst + fresh).subrange(0, dst.len() as int) =~= dst);
    assert((dst + fresh).subrange(dst.len() as int, (dst + fresh).len() as int) =~= Seq::<
        T,
    >::empty() + fresh);
}

} // verus!
