//! The plain dictionary encoding: one encoded id for each row.

use vstd::prelude::*;
use crate::dictionary::{decode, encoded_id_of, sorted, StringSet};
use crate::model::{
    decode_all, filter_rows, gather, greatest_id, has_non_null, has_null, has_other, id_extremes,
    ids_in_range, is_max_of, is_min_of, least_id, lemma_gather_decode, lemma_greatest_id,
    lemma_least_id, lemma_non_null_count_bounds, lemma_non_null_count_push, lemma_rows_with_id,
    non_null_count, repeat, rows_in_range, rows_with, rows_with_id, saturated, total_bytes,
};
use crate::operator::Operator;
use crate::row_ids::RowIDs;
use crate::value_set::ValueSet;
use crate::value::{opt_string_view, opt_view, opt_views};

verus! {

/// A column that keeps the encoded id of every row.
pub struct Plain {
    dictionary: StringSet,
    encoded: Vec<u32>,
    num_non_null: u32,
    min_id: u32,
    max_id: u32,
}

impl View for Plain {
    type V = Seq<Option<Seq<char>>>;

    /// The logical column: the value of each row.
    open spec fn view(&self) -> Seq<Option<Seq<char>>> {
        decode_all(self.dictionary(), self.ids())
    }
}

impl Plain {
    /// The dictionary's entries in order.
    pub closed spec fn dictionary(&self) -> Seq<Seq<char>> {
        self.dictionary@
    }

    /// The encoded id of each row.
    pub closed spec fn ids(&self) -> Seq<u32> {
        self.encoded@
    }

    /// The representation invariant.
    pub closed spec fn wf(&self) -> bool {
        &&& self.dictionary.wf()
        &&& self.encoded@.len() <= u32::MAX
        &&& ids_in_range(self.dictionary@, self.encoded@)
        &&& self.num_non_null == non_null_count(self@)
        &&& id_extremes(self.encoded@, self.min_id, self.max_id)
    }

    /// What the invariant says of the dictionary and the ids.
    pub proof fn lemma_wf(&self)
        requires
            self.wf(),
        ensures
            sorted(self.dictionary()),
            self.dictionary().len() <= u32::MAX,
            self.ids().len() <= u32::MAX,
            self@.len() == self.ids().len(),
            ids_in_range(self.dictionary(), self.ids()),
    {
        self.dictionary.lemma_wf();
    }

    /// An empty column over `dictionary`.
    pub fn with_dictionary(dictionary: StringSet) -> (p: Plain)
        requires
            dictionary.wf(),
        ensures
            p.wf(),
            p.dictionary() == dictionary@,
            p.ids() == Seq::<u32>::empty(),
            p@ == Seq::<Option<Seq<char>>>::empty(),
    {
        let p = Plain { dictionary, encoded: Vec::new(), num_non_null: 0, min_id: 0, max_id: 0 };
        assert(p@ =~= Seq::<Option<Seq<char>>>::empty());
        p
    }

    /// Appends `count` rows that hold `value`.
    pub fn push_additional(&mut self, value: Option<String>, count: u32)
        requires
            old(self).wf(),
            old(self)@.len() + count <= u32::MAX,
            value is Some ==> old(self).dictionary().contains(value->0@),
        ensures
            final(self).wf(),
            final(self).dictionary() == old(self).dictionary(),
            final(self).ids() == old(self).ids() + repeat(
                encoded_id_of(old(self).dictionary(), opt_string_view(value)) as u32,
                count as nat,
            ),
            final(self)@ == old(self)@ + repeat(opt_string_view(value), count as nat),
    {
        let id: u32 = match &value {
            Some(s) => self.dictionary.find(s.as_str()),
            None => 0,
        };
        proof {
            self.dictionary.lemma_wf();
        }
        let ghost d = self.dictionary@;
        let ghost v = opt_string_view(value);
        assert(decode(d, id) == v);
        let mut k: u32 = 0;
        assert(self.encoded@ =~= old(self).encoded@ + repeat(id, 0));
        assert(self@ =~= old(self)@ + repeat(v, 0));
        while k < count
            invariant
                k <= count,
                self.dictionary == old(self).dictionary,
                self.dictionary@ == d,
                self.dictionary.wf(),
                id <= d.len(),
                decode(d, id) == v,
                old(self)@.len() + count <= u32::MAX,
                old(self)@.len() == old(self).encoded@.len(),
                self.encoded@ == old(self).encoded@ + repeat(id, k as nat),
                self@ == old(self)@ + repeat(v, k as nat),
                ids_in_range(d, self.encoded@),
                self.num_non_null == non_null_count(self@),
                id_extremes(self.encoded@, self.min_id, self.max_id),
            decreases count - k,
        {
            let ghost before = *self;
            proof {
                lemma_non_null_count_push(before@, v);
                lemma_non_null_count_bounds(before@.push(v));
            }
            self.encoded.push(id);
            assert(self@ =~= before@.push(v));
            if id != 0 {
                self.num_non_null = self.num_non_null + 1;
                if self.min_id == 0 || id < self.min_id {
                    self.min_id = id;
                }
                if id > self.max_id {
                    self.max_id = id;
                }
            }
            k = k + 1;
            proof {
                assert(self.encoded@ =~= old(self).encoded@ + repeat(id, k as nat));
                assert(self@ =~= old(self)@ + repeat(v, k as nat));
                let ids = self.encoded@;
                let n = before.encoded@.len() as int;
                assert(ids[n] == id);
                assert forall|r: int| 0 <= r < ids.len() implies #[trigger] ids[r] <= d.len() by {
                    if r < n {
                        assert(ids[r] == before.encoded@[r]);
                    }
                }
                assert forall|r: int| 0 <= r < n implies ids[r] == #[trigger] before.encoded@[r] by {}
                if before.min_id > 0 {
                    let i = choose|i: int| 0 <= i < n && before.encoded@[i] == before.min_id;
                    let j = choose|j: int| 0 <= j < n && before.encoded@[j] == before.max_id;
                    assert(ids[i] == before.min_id);
                    assert(ids[j] == before.max_id);
                }
                assert(id_extremes(ids, self.min_id, self.max_id));
            }
        }
    }

    /// The number of rows.
    pub fn num_rows(&self) -> (n: u32)
        requires
            self.wf(),
        ensures
            n == self@.len(),
    {
        self.encoded.len() as u32
    }

    /// The least non-null value of the column, or `None` where every row is NULL.
    pub fn column_min(&self) -> (o: Option<&str>)
        requires
            self.wf(),
        ensures
            is_min_of(self@, opt_view(o)),
    {
        proof {
            self.dictionary.lemma_wf();
            lemma_least_id(self.dictionary@, self.encoded@, self.min_id);
        }
        self.dictionary.get(self.min_id)
    }

    /// The greatest non-null value of the column, or `None` where every row is NULL.
    pub fn column_max(&self) -> (o: Option<&str>)
        requires
            self.wf(),
        ensures
            is_max_of(self@, opt_view(o)),
    {
        proof {
            self.dictionary.lemma_wf();
            lemma_greatest_id(self.dictionary@, self.encoded@, self.max_id);
        }
        self.dictionary.get(self.max_id)
    }

    /// Whether some row is NULL.
    pub fn contains_null(&self) -> (b: bool)
        requires
            self.wf(),
        ensures
            b == has_null(self@),
    {
        proof {
            lemma_non_null_count_bounds(self@);
        }
        (self.num_non_null as usize) < self.encoded.len()
    }

    /// Whether some row is not NULL.
    pub fn has_any_non_null_value(&self) -> (b: bool)
        requires
            self.wf(),
        ensures
            b == has_non_null(self@),
    {
        proof {
            lemma_non_null_count_bounds(self@);
        }
        self.num_non_null > 0
    }

    /// Whether the encoding keeps the rows of each value at hand.
    pub fn has_pre_computed_row_id_sets(&self) -> (b: bool)
        ensures
            !b,
    {
        false
    }

    /// The string that the encoded id `e` stands for; `None` for 0 and for
    /// an id beyond the dictionary.
    pub fn decode_id(&self, e: u32) -> (o: Option<&str>)
        ensures
            opt_view(o) == decode(self.dictionary(), e),
    {
        self.dictionary.get(e)
    }

    /// The value of row `row_id`: `None` for NULL.
    pub fn value(&self, row_id: u32) -> (o: Option<&str>)
        requires
            self.wf(),
            row_id < self@.len(),
        ensures
            opt_view(o) == self@[row_id as int],
    {
        self.dictionary.get(self.encoded[row_id as usize])
    }

    /// Appends to `dst` the encoded id of each of the rows `row_ids`, in their order.
    pub fn encoded_values(&self, row_ids: &[u32], dst: Vec<u32>) -> (out: Vec<u32>)
        requires
            self.wf(),
            rows_in_range(row_ids@, self@.len()),
        ensures
            out@ == dst@ + gather(self.ids(), row_ids@),
    {
        let mut out = dst;
        let mut i: usize = 0;
        assert(out@ =~= dst@ + gather(self.encoded@, row_ids@.subrange(0, 0)));
        while i < row_ids.len()
            invariant
                i <= row_ids@.len(),
                rows_in_range(row_ids@, self.encoded@.len()),
                out@ == dst@ + gather(self.encoded@, row_ids@.subrange(0, i as int)),
            decreases row_ids@.len() - i,
        {
            out.push(self.encoded[row_ids[i] as usize]);
            assert(out@ =~= dst@ + gather(self.encoded@, row_ids@.subrange(0, i + 1)));
            i = i + 1;
        }
        assert(row_ids@.subrange(0, i as int) =~= row_ids@);
        out
    }

    /// Appends to `dst` the encoded id of every row, in row order.
    pub fn all_encoded_values(&self, dst: Vec<u32>) -> (out: Vec<u32>)
        ensures
            out@ == dst@ + self.ids(),
    {
        let mut out = dst;
        let mut i: usize = 0;
        assert(out@ =~= dst@ + self.encoded@.subrange(0, 0));
        while i < self.encoded.len()
            invariant
                i <= self.encoded@.len(),
                out@ == dst@ + self.encoded@.subrange(0, i as int),
            decreases self.encoded@.len() - i,
        {
            out.push(self.encoded[i]);
            assert(out@ =~= dst@ + self.encoded@.subrange(0, i + 1));
            i = i + 1;
        }
        assert(self.encoded@.subrange(0, i as int) =~= self.encoded@);
        out
    }

    /// Appends to `dst` the value of each of the rows `row_ids`, in their order.
    pub fn values<'a>(&'a self, row_ids: &[u32], dst: Vec<Option<&'a str>>) -> (out: Vec<
        Option<&'a str>,
    >)
        requires
            self.wf(),
            rows_in_range(row_ids@, self@.len()),
        ensures
            out@.len() == dst@.len() + row_ids@.len(),
            out@.subrange(0, dst@.len() as int) == dst@,
            opt_views(out@) == opt_views(dst@) + gather(self@, row_ids@),
    {
        let mut out = dst;
        let mut i: usize = 0;
        let ghost col = self@;
        assert(out@.subrange(0, dst@.len() as int) =~= dst@);
        assert(opt_views(out@) =~= opt_views(dst@) + gather(col, row_ids@.subrange(0, 0)));
        while i < row_ids.len()
            invariant
                i <= row_ids@.len(),
                self.wf(),
                col == self@,
                rows_in_range(row_ids@, col.len()),
                out@.len() == dst@.len() + i,
                out@.subrange(0, dst@.len() as int) == dst@,
                opt_views(out@) == opt_views(dst@) + gather(col, row_ids@.subrange(0, i as int)),
            decreases row_ids@.len() - i,
        {
            let ghost prev = out@;
            let v = self.value(row_ids[i]);
            out.push(v);
            proof {
                assert(out@.subrange(0, dst@.len() as int) =~= prev.subrange(0, dst@.len() as int));
                assert(opt_views(out@) =~= opt_views(prev).push(opt_view(v)));
                assert(opt_views(out@) =~= opt_views(dst@) + gather(
                    col,
                    row_ids@.subrange(0, i + 1),
                ));
            }
            i = i + 1;
        }
        assert(row_ids@.subrange(0, i as int) =~= row_ids@);
        out
    }

    /// Appends to `dst` the value of every row, in row order.
    pub fn all_values<'a>(&'a self, dst: Vec<Option<&'a str>>) -> (out: Vec<Option<&'a str>>)
        requires
            self.wf(),
        ensures
            out@.len() == dst@.len() + self@.len(),
            out@.subrange(0, dst@.len() as int) == dst@,
            opt_views(out@) == opt_views(dst@) + self@,
    {
        let mut out = dst;
        let mut i: usize = 0;
        let ghost col = self@;
        assert(out@.subrange(0, dst@.len() as int) =~= dst@);
        assert(opt_views(out@) =~= opt_views(dst@) + col.subrange(0, 0));
        while i < self.encoded.len()
            invariant
                i <= col.len(),
                self.wf(),
                col == self@,
                col.len() == self.encoded@.len(),
                out@.len() == dst@.len() + i,
                out@.subrange(0, dst@.len() as int) == dst@,
                opt_views(out@) == opt_views(dst@) + col.subrange(0, i as int),
            decreases col.len() - i,
        {
            let ghost prev = out@;
            let v = self.value(i as u32);
            out.push(v);
            proof {
                assert(out@.subrange(0, dst@.len() as int) =~= prev.subrange(0, dst@.len() as int));
                assert(opt_views(out@) =~= opt_views(prev).push(opt_view(v)));
                assert(opt_views(out@) =~= opt_views(dst@) + col.subrange(0, i + 1));
            }
            i = i + 1;
        }
        assert(col.subrange(0, i as int) =~= col);
        out
    }

    /// Whether one of the rows `row_ids` is not NULL.
    pub fn has_non_null_value(&self, row_ids: &[u32]) -> (b: bool)
        requires
            self.wf(),
            rows_in_range(row_ids@, self@.len()),
        ensures
            b == has_non_null(gather(self@, row_ids@)),
    {
        let ghost g = gather(self@, row_ids@);
        let mut i: usize = 0;
        while i < row_ids.len()
            invariant
                i <= row_ids@.len(),
                self.wf(),
                g == gather(self@, row_ids@),
                rows_in_range(row_ids@, self@.len()),
                forall|k: int| 0 <= k < i ==> #[trigger] g[k] is None,
            decreases row_ids@.len() - i,
        {
            if self.encoded[row_ids[i] as usize] != 0 {
                proof {
                    self.dictionary.lemma_wf();
                    assert(g[i as int] is Some);
                }
                return true;
            }
            assert(g[i as int] is None);
            i = i + 1;
        }
        false
    }

    /// The number of the rows `row_ids` that are not NULL.
    pub fn count(&self, row_ids: &[u32]) -> (n: u32)
        requires
            self.wf(),
            rows_in_range(row_ids@, self@.len()),
            row_ids@.len() <= u32::MAX,
        ensures
            n == non_null_count(gather(self@, row_ids@)),
    {
        let ghost col = self@;
        let mut n: u32 = 0;
        let mut i: usize = 0;
        assert(gather(col, row_ids@.subrange(0, 0)) =~= Seq::empty());
        while i < row_ids.len()
            invariant
                i <= row_ids@.len(),
                row_ids@.len() <= u32::MAX,
                self.wf(),
                col == self@,
                rows_in_range(row_ids@, col.len()),
                n <= i,
                n == non_null_count(gather(col, row_ids@.subrange(0, i as int))),
            decreases row_ids@.len() - i,
        {
            proof {
                self.dictionary.lemma_wf();
                let v = col[row_ids@[i as int] as int];
                lemma_non_null_count_push(gather(col, row_ids@.subrange(0, i as int)), v);
                assert(gather(col, row_ids@.subrange(0, i + 1)) =~= gather(
                    col,
                    row_ids@.subrange(0, i as int),
                ).push(v));
            }
            if self.encoded[row_ids[i] as usize] != 0 {
                n = n + 1;
            }
            i = i + 1;
        }
        assert(row_ids@.subrange(0, i as int) =~= row_ids@);
        n
    }

    /// The least non-null value among the rows `row_ids`, or `None` where all of them are NULL.
    pub fn min(&self, row_ids: &[u32]) -> (o: Option<&str>)
        requires
            self.wf(),
            rows_in_range(row_ids@, self@.len()),
        ensures
            is_min_of(gather(self@, row_ids@), opt_view(o)),
    {
        let ghost ids = self.encoded@;
        let mut lo: u32 = 0;
        let mut i: usize = 0;
        while i < row_ids.len()
            invariant
                i <= row_ids@.len(),
                ids == self.encoded@,
                rows_in_range(row_ids@, ids.len()),
                least_id(gather(ids, row_ids@.subrange(0, i as int)), lo),
            decreases row_ids@.len() - i,
        {
            let ghost g = gather(ids, row_ids@.subrange(0, i as int));
            let ghost h = gather(ids, row_ids@.subrange(0, i + 1));
            let ghost prev = lo;
            let e = self.encoded[row_ids[i] as usize];
            if e != 0 && (lo == 0 || e < lo) {
                lo = e;
            }
            proof {
                assert(h =~= g.push(e));
                assert forall|r: int| 0 <= r < g.len() implies h[r] == #[trigger] g[r] by {}
                assert(h[i as int] == e);
                if prev > 0 {
                    let k = choose|k: int| 0 <= k < g.len() && g[k] == prev;
                    assert(h[k] == prev);
                }
                assert forall|r: int| 0 <= r < h.len() && #[trigger] h[r] != 0 implies lo
                    <= h[r] by {
                    if r < g.len() {
                        assert(g[r] != 0);
                    }
                }
                if lo == 0 {
                    assert forall|r: int| 0 <= r < h.len() implies #[trigger] h[r] == 0 by {
                        if r < g.len() {
                            assert(g[r] == 0);
                        }
                    }
                }
            }
            i = i + 1;
        }
        proof {
            assert(row_ids@.subrange(0, i as int) =~= row_ids@);
            self.dictionary.lemma_wf();
            lemma_gather_decode(self.dictionary@, ids, row_ids@);
            lemma_least_id(self.dictionary@, gather(ids, row_ids@), lo);
        }
        self.dictionary.get(lo)
    }

    /// The greatest non-null value among the rows `row_ids`, or `None` where all of them are NULL.
    pub fn max(&self, row_ids: &[u32]) -> (o: Option<&str>)
        requires
            self.wf(),
            rows_in_range(row_ids@, self@.len()),
        ensures
            is_max_of(gather(self@, row_ids@), opt_view(o)),
    {
        let ghost ids = self.encoded@;
        let mut hi: u32 = 0;
        let mut i: usize = 0;
        while i < row_ids.len()
            invariant
                i <= row_ids@.len(),
                ids == self.encoded@,
                rows_in_range(row_ids@, ids.len()),
                greatest_id(gather(ids, row_ids@.subrange(0, i as int)), hi),
            decreases row_ids@.len() - i,
        {
            let ghost g = gather(ids, row_ids@.subrange(0, i as int));
            let ghost h = gather(ids, row_ids@.subrange(0, i + 1));
            let ghost prev = hi;
            let e = self.encoded[row_ids[i] as usize];
            if e > hi {
                hi = e;
            }
            proof {
                assert(h =~= g.push(e));
                assert forall|r: int| 0 <= r < g.len() implies h[r] == #[trigger] g[r] by {}
                assert(h[i as int] == e);
                if prev > 0 {
                    let k = choose|k: int| 0 <= k < g.len() && g[k] == prev;
                    assert(h[k] == prev);
                }
                assert forall|r: int| 0 <= r < h.len() implies #[trigger] h[r] <= hi by {
                    if r < g.len() {
                        assert(g[r] <= prev);
                    }
                }
            }
            i = i + 1;
        }
        proof {
            assert(row_ids@.subrange(0, i as int) =~= row_ids@);
            self.dictionary.lemma_wf();
            lemma_gather_decode(self.dictionary@, ids, row_ids@);
            lemma_greatest_id(self.dictionary@, gather(ids, row_ids@), hi);
        }
        self.dictionary.get(hi)
    }

    /// Whether some row holds a non-null value that is not in `values`. Stops
    /// at the first such row.
    pub fn has_other_non_null_values(&self, values: &StringSet) -> (b: bool)
        requires
            self.wf(),
            values.wf(),
        ensures
            b == has_other(self@, values@.to_set()),
    {
        let ghost col = self@;
        let mut r: usize = 0;
        while r < self.encoded.len()
            invariant
                r <= col.len(),
                self.wf(),
                values.wf(),
                col == self@,
                col.len() == self.encoded@.len(),
                forall|k: int|
                    0 <= k < r && #[trigger] col[k] is Some ==> values@.to_set().contains(
                        col[k]->0,
                    ),
            decreases col.len() - r,
        {
            match self.value(r as u32) {
                Some(s) => {
                    if !values.contains(s) {
                        assert(col[r as int] is Some && !values@.to_set().contains(
                            col[r as int]->0,
                        ));
                        return true;
                    }
                },
                None => {},
            }
            r = r + 1;
        }
        false
    }

    /// Adds to `dst` the values found at the rows `row_ids`, NULL among them.
    pub fn distinct_values<'a>(&'a self, row_ids: &[u32], dst: ValueSet<'a>) -> (out: ValueSet<'a>)
        requires
            self.wf(),
            dst.wf(),
            rows_in_range(row_ids@, self@.len()),
        ensures
            out.wf(),
            out@ == dst@.union(gather(self@, row_ids@).to_set()),
    {
        let mut out = dst;
        let ghost col = self@;
        let mut i: usize = 0;
        assert(out@ =~= dst@.union(gather(col, row_ids@.subrange(0, 0)).to_set()));
        while i < row_ids.len()
            invariant
                i <= row_ids@.len(),
                self.wf(),
                out.wf(),
                col == self@,
                rows_in_range(row_ids@, col.len()),
                out@ == dst@.union(gather(col, row_ids@.subrange(0, i as int)).to_set()),
            decreases row_ids@.len() - i,
        {
            let v = self.value(row_ids[i]);
            out.insert(v);
            proof {
                let g = gather(col, row_ids@.subrange(0, i as int));
                let h = gather(col, row_ids@.subrange(0, i + 1));
                assert(h =~= g.push(opt_view(v)));
                assert forall|x: Option<Seq<char>>| h.to_set().contains(x) <==> g.to_set().insert(
                    opt_view(v),
                ).contains(x) by {
                    if h.to_set().contains(x) {
                        let k = choose|k: int| 0 <= k < h.len() && h[k] == x;
                        if k < g.len() {
                            assert(g[k] == x);
                        }
                    }
                    if g.to_set().contains(x) {
                        let k = choose|k: int| 0 <= k < g.len() && g[k] == x;
                        assert(h[k] == x);
                    }
                    if x == opt_view(v) {
                        assert(h[g.len() as int] == x);
                    }
                }
                assert(out@ =~= dst@.union(h.to_set()));
            }
            i = i + 1;
        }
        assert(row_ids@.subrange(0, i as int) =~= row_ids@);
        out
    }

    /// Adds to `dst` the rows whose value is not NULL and stands in the
    /// relation `op` to `value`.
    pub fn row_ids_filter(&self, value: &str, op: &Operator, dst: RowIDs) -> (out: RowIDs)
        requires
            self.wf(),
            dst.wf(),
        ensures
            out.wf(),
            out@ == dst@.union(filter_rows(self@, *op, value@)),
    {
        let q = self.dictionary.predicate(op, value);
        let mut out = dst;
        let ghost col = self@;
        let mut r: usize = 0;
        assert(out@ =~= dst@.union(filter_rows(col.subrange(0, 0), *op, value@)));
        while r < self.encoded.len()
            invariant
                r <= col.len(),
                self.wf(),
                out.wf(),
                col == self@,
                col.len() == self.encoded@.len(),
                q.stands_for(self.dictionary@, *op, value@),
                out@ == dst@.union(filter_rows(col.subrange(0, r as int), *op, value@)),
            decreases col.len() - r,
        {
            let e = self.encoded[r];
            let ghost prev = out@;
            assert(col[r as int] == decode(self.dictionary@, e));
            if q.test(e) {
                out.add(r as u32);
            }
            proof {
                let a = filter_rows(col.subrange(0, r as int), *op, value@);
                let b = filter_rows(col.subrange(0, r + 1), *op, value@);
                assert forall|x: u32| b.contains(x) <==> (a.contains(x) || (x == r && op.selects(
                    col[r as int],
                    value@,
                ))) by {
                    if x < r {
                        assert(col.subrange(0, r as int)[x as int] == col.subrange(0, r + 1)[x as int]);
                    }
                }
                assert(out@ =~= dst@.union(b));
            }
            r = r + 1;
        }
        assert(col.subrange(0, r as int) =~= col);
        out
    }

    /// The bytes that the column holds: the dictionary's strings and four
    /// bytes for each row.
    pub open spec fn spec_size(&self) -> nat {
        total_bytes(self.dictionary()) + 4 * self.ids().len()
    }

    /// The bytes that the column holds, the dictionary included, up to the
    /// greatest 64-bit number.
    pub fn size(&self) -> (n: u64)
        requires
            self.wf(),
        ensures
            n == saturated(self.spec_size()),
    {
        let d = self.dictionary.byte_len();
        let rows: u64 = 4 * (self.encoded.len() as u64);
        if u64::MAX - d < rows {
            u64::MAX
        } else {
            d + rows
        }
    }

    /// The rows of each encoded id: the set at place `e` holds the rows whose
    /// value is the one that `e` stands for, and the set at place 0 the NULL rows.
    pub fn group_row_ids(&self) -> (out: Vec<RowIDs>)
        requires
            self.wf(),
        ensures
            out@.len() == self.dictionary().len() + 1,
            forall|e: int|
                0 <= e < out@.len() ==> (#[trigger] out@[e]).wf() && out@[e]@ == rows_with(
                    self@,
                    decode(self.dictionary(), e as u32),
                ),
    {
        let ghost ids = self.encoded@;
        let ghost d = self.dictionary@;
        proof {
            self.dictionary.lemma_wf();
        }
        let mut out: Vec<RowIDs> = Vec::new();
        out.push(RowIDs::new());
        let mut e: usize = 0;
        while e < self.dictionary.len()
            invariant
                e <= d.len(),
                d == self.dictionary@,
                out@.len() == e + 1,
                forall|k: int|
                    0 <= k <= e ==> (#[trigger] out@[k]).wf() && out@[k]@ == Set::<u32>::empty(),
            decreases d.len() - e,
        {
            out.push(RowIDs::new());
            e = e + 1;
        }
        let mut r: usize = 0;
        assert forall|k: int| 0 <= k < out@.len() implies (#[trigger] out@[k])@ == rows_with_id(
            ids.subrange(0, 0),
            k as u32,
        ) by {
            assert(out@[k]@ =~= rows_with_id(ids.subrange(0, 0), k as u32));
        }
        while r < self.encoded.len()
            invariant
                r <= ids.len(),
                ids == self.encoded@,
                ids.len() <= u32::MAX,
                ids_in_range(d, ids),
                d.len() <= u32::MAX,
                out@.len() == d.len() + 1,
                forall|k: int|
                    0 <= k < out@.len() ==> (#[trigger] out@[k]).wf() && out@[k]@ == rows_with_id(
                        ids.subrange(0, r as int),
                        k as u32,
                    ),
            decreases ids.len() - r,
        {
            let id = self.encoded[r];
            let ghost prev = out@;
            out[id as usize].add(r as u32);
            proof {
                assert forall|k: int| 0 <= k < out@.len() implies (#[trigger] out@[k]).wf()
                    && out@[k]@ == rows_with_id(ids.subrange(0, r + 1), k as u32) by {
                    let a = rows_with_id(ids.subrange(0, r as int), k as u32);
                    let b = rows_with_id(ids.subrange(0, r + 1), k as u32);
                    assert(prev[k].wf() && prev[k]@ == a);
                    assert forall|x: u32| b.contains(x) <==> (a.contains(x) || (x == r && id
                        == k)) by {
                        if x < r {
                            assert(ids.subrange(0, r as int)[x as int] == ids.subrange(0, r + 1)[x as int]);
                        }
                    }
                    if k == id {
                        assert(out@[k]@ =~= b);
                    } else {
                        assert(out@[k] == prev[k]);
                        assert(a =~= b);
                    }
                }
            }
            r = r + 1;
        }
        proof {
            assert(ids.subrange(0, r as int) =~= ids);
            assert forall|k: int| 0 <= k < out@.len() implies (#[trigger] out@[k]).wf() && out@[k]@
                == rows_with(self@, decode(d, k as u32)) by {
                lemma_rows_with_id(d, ids, k as u32);
            }
        }
        out
    }

    /// The dictionary's entries in order.
    pub fn dictionary_entries(&self) -> (v: Vec<&str>)
        ensures
            v@.len() == self.dictionary().len(),
            forall|i: int| 0 <= i < v@.len() ==> (#[trigger] v@[i])@ == self.dictionary()[i],
    {
        self.dictionary.to_vec()
    }
}

} // verus!
