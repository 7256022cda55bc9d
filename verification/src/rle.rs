//! The run-length dictionary encoding: runs of equal encoded ids, and for
//! each id the set of rows that hold it.

use vstd::prelude::*;
use crate::dictionary::{decode, encoded_id_of, sorted, StringSet};
use crate::model::{
    decode_all, filter_rows, gather, greatest_id, has_non_null, has_null, has_other, id_extremes,
    ids_in_range, is_max_of, is_min_of, least_id, lemma_gather_decode, lemma_greatest_id,
    lemma_id_extremes_repeat, lemma_least_id, lemma_non_null_count_bounds,
    lemma_non_null_count_push, lemma_non_null_count_repeat, lemma_rows_with_id,
    lemma_rows_with_id_repeat, non_null_count, repeat, rows_in_range, rows_with, rows_with_id,
    saturated, total_bytes,
};
use crate::operator::Operator;
use crate::value_set::ValueSet;
use crate::row_ids::RowIDs;
use crate::runs::{
    expand, lemma_expand_extend, lemma_expand_index, lemma_expand_len, lemma_expand_push,
    lemma_run_start, run_start, runs_wf, total_len,
};
use crate::value::{opt_string_view, opt_view, opt_views};

verus! {

/// A column that keeps runs of equal encoded ids and an inverted index.
pub struct RLE {
    dictionary: StringSet,
    runs: Vec<(u32, u32)>,
    row_ids_by_id: Vec<RowIDs>,
    num_rows: u32,
    num_non_null: u32,
    min_id: u32,
    max_id: u32,
}

impl View for RLE {
    type V = Seq<Option<Seq<char>>>;

    /// The logical column: the value of each row.
    open spec fn view(&self) -> Seq<Option<Seq<char>>> {
        decode_all(self.dictionary(), self.ids())
    }
}

impl RLE {
    /// The dictionary's entries in order.
    pub closed spec fn dictionary(&self) -> Seq<Seq<char>> {
        self.dictionary@
    }

    /// The runs: pairs of an encoded id and a number of rows.
    pub closed spec fn runs(&self) -> Seq<(u32, u32)> {
        self.runs@
    }

    /// The encoded id of each row.
    pub open spec fn ids(&self) -> Seq<u32> {
        expand(self.runs())
    }

    /// The inverted index: at place `e`, the rows that hold the encoded id `e`.
    pub closed spec fn index(&self) -> Seq<Set<u32>> {
        Seq::new(self.row_ids_by_id@.len(), |e: int| self.row_ids_by_id@[e]@)
    }

    /// The representation invariant.
    pub closed spec fn wf(&self) -> bool {
        &&& self.dictionary.wf()
        &&& runs_wf(self.runs@)
        &&& expand(self.runs@).len() == self.num_rows
        &&& ids_in_range(self.dictionary@, expand(self.runs@))
        &&& self.row_ids_by_id@.len() == self.dictionary@.len() + 1
        &&& forall|e: int|
            0 <= e < self.row_ids_by_id@.len() ==> (#[trigger] self.row_ids_by_id@[e]).wf()
                && self.row_ids_by_id@[e]@ == rows_with_id(expand(self.runs@), e as u32)
        &&& self.num_non_null == non_null_count(self@)
        &&& id_extremes(expand(self.runs@), self.min_id, self.max_id)
    }

    /// What the invariant says of the dictionary, the runs and the index.
    pub proof fn lemma_wf(&self)
        requires
            self.wf(),
        ensures
            sorted(self.dictionary()),
            self.dictionary().len() <= u32::MAX,
            runs_wf(self.runs()),
            total_len(self.runs()) == self.ids().len(),
            self.ids().len() <= u32::MAX,
            self@.len() == self.ids().len(),
            ids_in_range(self.dictionary(), self.ids()),
            self.index().len() == self.dictionary().len() + 1,
            forall|e: int|
                0 <= e < self.index().len() ==> #[trigger] self.index()[e] == rows_with_id(
                    self.ids(),
                    e as u32,
                ),
    {
        self.dictionary.lemma_wf();
        lemma_expand_len(self.runs@);
    }

    /// An empty column over `dictionary`.
    pub fn with_dictionary(dictionary: StringSet) -> (c: RLE)
        requires
            dictionary.wf(),
        ensures
            c.wf(),
            c.dictionary() == dictionary@,
            c.runs() == Seq::<(u32, u32)>::empty(),
            c@ == Seq::<Option<Seq<char>>>::empty(),
    {
        proof {
            dictionary.lemma_wf();
        }
        let n = dictionary.len();
        let mut index: Vec<RowIDs> = Vec::new();
        index.push(RowIDs::new());
        let mut e: usize = 0;
        while e < n
            invariant
                e <= n,
                index@.len() == e + 1,
                forall|k: int|
                    0 <= k <= e ==> (#[trigger] index@[k]).wf() && index@[k]@ == Set::<u32>::empty(),
            decreases n - e,
        {
            index.push(RowIDs::new());
            e = e + 1;
        }
        let c = RLE {
            dictionary,
            runs: Vec::new(),
            row_ids_by_id: index,
            num_rows: 0,
            num_non_null: 0,
            min_id: 0,
            max_id: 0,
        };
        proof {
            assert(c@ =~= Seq::<Option<Seq<char>>>::empty());
            assert forall|k: int| 0 <= k < c.row_ids_by_id@.len() implies (
            #[trigger] c.row_ids_by_id@[k])@ == rows_with_id(expand(c.runs@), k as u32) by {
                assert(c.row_ids_by_id@[k]@ =~= rows_with_id(expand(c.runs@), k as u32));
            }
        }
        c
    }

    /// Appends `count` rows that hold `value`: a new run, or a longer last
    /// run where that one has the same id already.
    pub fn push_additional(&mut self, value: Option<String>, count: u32)
        requires
            old(self).wf(),
            old(self)@.len() + count <= u32::MAX,
            value is Some ==> old(self).dictionary().contains(value->0@),
        ensures
            final(self).wf(),
            final(self).dictionary() == old(self).dictionary(),
            final(self).ids() == old(self).ids() + repeat(
                encoded_id_of(old(self).dictionary(), opt_string_view(value)) as u32,
                count as nat,
            ),
            final(self)@ == old(self)@ + repeat(opt_string_view(value), count as nat),
    {
        let id: u32 = match &value {
            Some(s) => self.dictionary.find(s.as_str()),
            None => 0,
        };
        proof {
            self.dictionary.lemma_wf();
            lemma_expand_len(self.runs@);
            lemma_non_null_count_bounds(self@);
        }
        let ghost d = self.dictionary@;
        let ghost v = opt_string_view(value);
        let ghost ids = expand(self.runs@);
        let ghost grown = ids + repeat(id, count as nat);
        assert(decode(d, id) == v);
        if count == 0 {
            assert(grown =~= ids);
            assert(self@ + repeat(v, 0) =~= self@);
            return ;
        }
        let n = self.runs.len();
        if n > 0 && self.runs[n - 1].0 == id {
            proof {
                lemma_expand_extend(self.runs@, count);
                lemma_last_run_len(self.runs@);
            }
            let len = self.runs[n - 1].1;
            self.runs[n - 1] = (id, len + count);
        } else {
            proof {
                lemma_expand_push(self.runs@, (id, count));
            }
            self.runs.push((id, count));
        }
        assert(expand(self.runs@) == grown);
        self.row_ids_by_id[id as usize].add_range(self.num_rows, self.num_rows + count);
        proof {
            lemma_non_null_count_repeat(old(self)@, v, count as nat);
            lemma_id_extremes_repeat(ids, self.min_id, self.max_id, id, count as nat);
            assert(self@ =~= old(self)@ + repeat(v, count as nat));
            assert forall|r: int| 0 <= r < grown.len() implies #[trigger] grown[r] <= d.len() by {
                if r < ids.len() {
                    assert(grown[r] == ids[r]);
                }
            }
            assert forall|e: int| 0 <= e < self.row_ids_by_id@.len() implies (
            #[trigger] self.row_ids_by_id@[e]).wf() && self.row_ids_by_id@[e]@ == rows_with_id(
                grown,
                e as u32,
            ) by {
                lemma_rows_with_id_repeat(ids, id, count as nat, e as u32);
                assert(old(self).row_ids_by_id@[e].wf());
                if e == id {
                    assert(Set::new(|r: u32| ids.len() <= r < ids.len() + count) =~= Set::new(
                        |r: u32| old(self).num_rows <= r < old(self).num_rows + count,
                    ));
                } else {
                    assert(self.row_ids_by_id@[e] == old(self).row_ids_by_id@[e]);
                }
            }
        }
        self.num_rows = self.num_rows + count;
        if id != 0 {
            self.num_non_null = self.num_non_null + count;
            if self.min_id == 0 || id < self.min_id {
                self.min_id = id;
            }
            if id > self.max_id {
                self.max_id = id;
            }
        }
        proof {
            let runs = self.runs@;
            assert(runs_wf(runs)) by {
                assert forall|k: int| 0 <= k < runs.len() implies (#[trigger] runs[k]).1 >= 1 by {
                    if k < old(self).runs@.len() && k < runs.len() - 1 {
                        assert(runs[k] == old(self).runs@[k]);
                    }
                }
                assert forall|k: int| 0 <= k < runs.len() - 1 implies (#[trigger] runs[k]).0
                    != runs[k + 1].0 by {
                    if k + 1 < old(self).runs@.len() {
                        assert(old(self).runs@[k].0 != old(self).runs@[k + 1].0);
                    }
                }
            }
        }
    }

    /// The number of rows.
    pub fn num_rows(&self) -> (n: u32)
        requires
            self.wf(),
        ensures
            n == self@.len(),
    {
        self.num_rows
    }

    /// Moves a cursor forward to the run that holds `row_id`. The cursor is
    /// a run and the row at which that run starts.
    fn seek(&self, row_id: u32, run: usize, start: u32) -> (at: (usize, u32))
        requires
            self.wf(),
            row_id < self@.len(),
            run <= self.runs@.len(),
            start == run_start(self.runs@, run as int),
            start <= row_id,
        ensures
            at.0 < self.runs@.len(),
            at.1 == run_start(self.runs@, at.0 as int),
            at.1 <= row_id < at.1 + self.runs@[at.0 as int].1,
            self.ids()[row_id as int] == self.runs@[at.0 as int].0,
    {
        let mut k = run;
        let mut s = start;
        let ghost runs = self.runs@;
        proof {
            lemma_expand_len(runs);
            assert(runs.subrange(0, runs.len() as int) =~= runs);
        }
        let n = self.runs.len();
        while row_id - s >= self.runs[k].1
            invariant
                runs == self.runs@,
                n == runs.len(),
                k < runs.len(),
                s == run_start(runs, k as int),
                s <= row_id < total_len(runs),
            decreases runs.len() - k,
        {
            proof {
                lemma_run_start(runs, k as int);
            }
            s = s + self.runs[k].1;
            k = k + 1;
        }
        proof {
            lemma_expand_index(runs, k as int, row_id as int);
        }
        (k, s)
    }

    /// The string that the encoded id `e` stands for; `None` for 0 and for
    /// an id beyond the dictionary.
    pub fn decode_id(&self, e: u32) -> (o: Option<&str>)
        ensures
            opt_view(o) == decode(self.dictionary(), e),
    {
        self.dictionary.get(e)
    }

    /// The value of row `row_id`: `None` for NULL.
    pub fn value(&self, row_id: u32) -> (o: Option<&str>)
        requires
            self.wf(),
            row_id < self@.len(),
        ensures
            opt_view(o) == self@[row_id as int],
    {
        proof {
            assert(self.runs@.subrange(0, 0) =~= Seq::<(u32, u32)>::empty());
        }
        let at = self.seek(row_id, 0, 0);
        self.dictionary.get(self.runs[at.0].0)
    }

    /// Appends to `dst` the encoded id of each of the rows `row_ids`, in
    /// their order. One walk over the runs serves row ids that ascend.
    pub fn encoded_values(&self, row_ids: &[u32], dst: Vec<u32>) -> (out: Vec<u32>)
        requires
            self.wf(),
            rows_in_range(row_ids@, self@.len()),
        ensures
            out@ == dst@ + gather(self.ids(), row_ids@),
    {
        let mut out = dst;
        let mut i: usize = 0;
        let mut k: usize = 0;
        let mut s: u32 = 0;
        let ghost ids = self.ids();
        proof {
            assert(self.runs@.subrange(0, 0) =~= Seq::<(u32, u32)>::empty());
            assert(out@ =~= dst@ + gather(ids, row_ids@.subrange(0, 0)));
        }
        while i < row_ids.len()
            invariant
                i <= row_ids@.len(),
                self.wf(),
                ids == self.ids(),
                rows_in_range(row_ids@, self@.len()),
                k <= self.runs@.len(),
                s == run_start(self.runs@, k as int),
                run_start(self.runs@, 0) == 0,
                out@ == dst@ + gather(ids, row_ids@.subrange(0, i as int)),
            decreases row_ids@.len() - i,
        {
            let r = row_ids[i];
            if r < s {
                k = 0;
                s = 0;
            }
            let at = self.seek(r, k, s);
            k = at.0;
            s = at.1;
            out.push(self.runs[k].0);
            assert(out@ =~= dst@ + gather(ids, row_ids@.subrange(0, i + 1)));
            i = i + 1;
        }
        assert(row_ids@.subrange(0, i as int) =~= row_ids@);
        out
    }

    /// Appends to `dst` the encoded id of every row, in row order.
    pub fn all_encoded_values(&self, dst: Vec<u32>) -> (out: Vec<u32>)
        ensures
            out@ == dst@ + self.ids(),
    {
        let mut out = dst;
        let mut k: usize = 0;
        let ghost runs = self.runs@;
        proof {
            assert(runs.subrange(0, 0) =~= Seq::<(u32, u32)>::empty());
            assert(out@ =~= dst@ + expand(runs.subrange(0, 0)));
        }
        while k < self.runs.len()
            invariant
                k <= runs.len(),
                runs == self.runs@,
                out@ == dst@ + expand(runs.subrange(0, k as int)),
            decreases runs.len() - k,
        {
            let id = self.runs[k].0;
            let len = self.runs[k].1;
            let ghost base = out@;
            let mut j: u32 = 0;
            assert(out@ =~= base + repeat(id, 0));
            while j < len
                invariant
                    j <= len,
                    out@ == base + repeat(id, j as nat),
                decreases len - j,
            {
                out.push(id);
                assert(out@ =~= base + repeat(id, (j + 1) as nat));
                j = j + 1;
            }
            proof {
                assert(runs.subrange(0, k + 1) =~= runs.subrange(0, k as int).push(runs[k as int]));
                lemma_expand_push(runs.subrange(0, k as int), runs[k as int]);
                assert(out@ =~= dst@ + expand(runs.subrange(0, k + 1)));
            }
            k = k + 1;
        }
        assert(runs.subrange(0, k as int) =~= runs);
        out
    }

    /// Appends to `dst` the value of each of the rows `row_ids`, in their order.
    pub fn values<'a>(&'a self, row_ids: &[u32], dst: Vec<Option<&'a str>>) -> (out: Vec<
        Option<&'a str>,
    >)
        requires
            self.wf(),
            rows_in_range(row_ids@, self@.len()),
        ensures
            out@.len() == dst@.len() + row_ids@.len(),
            out@.subrange(0, dst@.len() as int) == dst@,
            opt_views(out@) == opt_views(dst@) + gather(self@, row_ids@),
    {
        let ids = self.encoded_values(row_ids, Vec::new());
        proof {
            lemma_gather_decode(self.dictionary@, self.ids(), row_ids@);
            assert(ids@ =~= gather(self.ids(), row_ids@));
        }
        self.decode_onto(&ids, dst)
    }

    /// Appends to `dst` the value of every row, in row order.
    pub fn all_values<'a>(&'a self, dst: Vec<Option<&'a str>>) -> (out: Vec<Option<&'a str>>)
        requires
            self.wf(),
        ensures
            out@.len() == dst@.len() + self@.len(),
            out@.subrange(0, dst@.len() as int) == dst@,
            opt_views(out@) == opt_views(dst@) + self@,
    {
        let ids = self.all_encoded_values(Vec::new());
        assert(ids@ =~= self.ids());
        self.decode_onto(&ids, dst)
    }

    /// Appends to `dst` the value that each of `ids` stands for.
    fn decode_onto<'a>(&'a self, ids: &Vec<u32>, dst: Vec<Option<&'a str>>) -> (out: Vec<
        Option<&'a str>,
    >)
        ensures
            out@.len() == dst@.len() + ids@.len(),
            out@.subrange(0, dst@.len() as int) == dst@,
            opt_views(out@) == opt_views(dst@) + decode_all(self.dictionary@, ids@),
    {
        let mut out = dst;
        let mut i: usize = 0;
        let ghost col = decode_all(self.dictionary@, ids@);
        assert(out@.subrange(0, dst@.len() as int) =~= dst@);
        assert(opt_views(out@) =~= opt_views(dst@) + col.subrange(0, 0));
        while i < ids.len()
            invariant
                i <= ids@.len(),
                col == decode_all(self.dictionary@, ids@),
                out@.len() == dst@.len() + i,
                out@.subrange(0, dst@.len() as int) == dst@,
                opt_views(out@) == opt_views(dst@) + col.subrange(0, i as int),
            decreases ids@.len() - i,
        {
            let ghost prev = out@;
            let v = self.dictionary.get(ids[i]);
            out.push(v);
            proof {
                assert(out@.subrange(0, dst@.len() as int) =~= prev.subrange(0, dst@.len() as int));
                assert(opt_views(out@) =~= opt_views(prev).push(opt_view(v)));
                assert(opt_views(out@) =~= opt_views(dst@) + col.subrange(0, i + 1));
            }
            i = i + 1;
        }
        assert(col.subrange(0, i as int) =~= col);
        out
    }

    /// The least non-null value of the column, or `None` where every row is NULL.
    pub fn column_min(&self) -> (o: Option<&str>)
        requires
            self.wf(),
        ensures
            is_min_of(self@, opt_view(o)),
    {
        proof {
            self.dictionary.lemma_wf();
            lemma_least_id(self.dictionary@, self.ids(), self.min_id);
        }
        self.dictionary.get(self.min_id)
    }

    /// The greatest non-null value of the column, or `None` where every row is NULL.
    pub fn column_max(&self) -> (o: Option<&str>)
        requires
            self.wf(),
        ensures
            is_max_of(self@, opt_view(o)),
    {
        proof {
            self.dictionary.lemma_wf();
            lemma_greatest_id(self.dictionary@, self.ids(), self.max_id);
        }
        self.dictionary.get(self.max_id)
    }

    /// Whether some row is NULL: whether the index has a row for the id 0.
    pub fn contains_null(&self) -> (b: bool)
        requires
            self.wf(),
        ensures
            b == has_null(self@),
    {
        let b = !self.row_ids_by_id[0].is_empty();
        proof {
            let ids = self.ids();
            let nulls = rows_with_id(ids, 0);
            lemma_expand_len(self.runs@);
            self.dictionary.lemma_wf();
            if has_null(self@) {
                let r = choose|r: int| 0 <= r < self@.len() && #[trigger] self@[r] is None;
                assert(ids[r] <= self.dictionary@.len());
                assert(nulls.contains(r as u32));
            }
            if nulls != Set::<u32>::empty() {
                assert(!(nulls =~= Set::<u32>::empty()));
                let r = choose|r: u32| nulls.contains(r);
                assert(self@[r as int] is None);
            }
        }
        b
    }

    /// Whether some row is not NULL.
    pub fn has_any_non_null_value(&self) -> (b: bool)
        requires
            self.wf(),
        ensures
            b == has_non_null(self@),
    {
        proof {
            lemma_non_null_count_bounds(self@);
        }
        self.num_non_null > 0
    }

    /// Whether the encoding keeps the rows of each value at hand.
    pub fn has_pre_computed_row_id_sets(&self) -> (b: bool)
        ensures
            b,
    {
        true
    }

    /// The encoded ids of the rows `row_ids`.
    fn ids_at(&self, row_ids: &[u32]) -> (g: Vec<u32>)
        requires
            self.wf(),
            rows_in_range(row_ids@, self@.len()),
        ensures
            g@ == gather(self.ids(), row_ids@),
            ids_in_range(self.dictionary@, g@),
            decode_all(self.dictionary@, g@) == gather(self@, row_ids@),
    {
        let g = self.encoded_values(row_ids, Vec::new());
        proof {
            assert(g@ =~= gather(self.ids(), row_ids@));
            lemma_gather_decode(self.dictionary@, self.ids(), row_ids@);
        }
        g
    }

    /// Whether one of the rows `row_ids` is not NULL.
    pub fn has_non_null_value(&self, row_ids: &[u32]) -> (b: bool)
        requires
            self.wf(),
            rows_in_range(row_ids@, self@.len()),
        ensures
            b == has_non_null(gather(self@, row_ids@)),
    {
        let g = self.ids_at(row_ids);
        let ghost col = decode_all(self.dictionary@, g@);
        let mut i: usize = 0;
        while i < g.len()
            invariant
                i <= g@.len(),
                col == decode_all(self.dictionary@, g@),
                col == gather(self@, row_ids@),
                ids_in_range(self.dictionary@, g@),
                forall|k: int| 0 <= k < i ==> #[trigger] col[k] is None,
            decreases g@.len() - i,
        {
            if g[i] != 0 {
                assert(col[i as int] is Some);
                return true;
            }
            assert(col[i as int] is None);
            i = i + 1;
        }
        false
    }

    /// The number of the rows `row_ids` that are not NULL.
    pub fn count(&self, row_ids: &[u32]) -> (n: u32)
        requires
            self.wf(),
            rows_in_range(row_ids@, self@.len()),
            row_ids@.len() <= u32::MAX,
        ensures
            n == non_null_count(gather(self@, row_ids@)),
    {
        let g = self.ids_at(row_ids);
        let ghost col = decode_all(self.dictionary@, g@);
        let mut n: u32 = 0;
        let mut i: usize = 0;
        assert(col.subrange(0, 0) =~= Seq::empty());
        while i < g.len()
            invariant
                i <= g@.len(),
                g@.len() <= u32::MAX,
                col == decode_all(self.dictionary@, g@),
                col == gather(self@, row_ids@),
                ids_in_range(self.dictionary@, g@),
                n <= i,
                n == non_null_count(col.subrange(0, i as int)),
            decreases g@.len() - i,
        {
            proof {
                lemma_non_null_count_push(col.subrange(0, i as int), col[i as int]);
                assert(col.subrange(0, i + 1) =~= col.subrange(0, i as int).push(col[i as int]));
            }
            if g[i] != 0 {
                n = n + 1;
            }
            i = i + 1;
        }
        assert(col.subrange(0, i as int) =~= col);
        n
    }

    /// The least non-null value among the rows `row_ids`, or `None` where all of them are NULL.
    pub fn min(&self, row_ids: &[u32]) -> (o: Option<&str>)
        requires
            self.wf(),
            rows_in_range(row_ids@, self@.len()),
        ensures
            is_min_of(gather(self@, row_ids@), opt_view(o)),
    {
        let g = self.ids_at(row_ids);
        let mut lo: u32 = 0;
        let mut i: usize = 0;
        while i < g.len()
            invariant
                i <= g@.len(),
                self.wf(),
                ids_in_range(self.dictionary@, g@),
                decode_all(self.dictionary@, g@) == gather(self@, row_ids@),
                least_id(g@.subrange(0, i as int), lo),
            decreases g@.len() - i,
        {
            let ghost a = g@.subrange(0, i as int);
            let ghost b = g@.subrange(0, i + 1);
            let ghost prev = lo;
            let e = g[i];
            if e != 0 && (lo == 0 || e < lo) {
                lo = e;
            }
            proof {
                assert forall|r: int| 0 <= r < a.len() implies b[r] == #[trigger] a[r] by {}
                assert(b[i as int] == e);
                if prev > 0 {
                    let k = choose|k: int| 0 <= k < a.len() && a[k] == prev;
                    assert(b[k] == prev);
                }
                assert forall|r: int| 0 <= r < b.len() && #[trigger] b[r] != 0 implies lo
                    <= b[r] by {
                    if r < a.len() {
                        assert(a[r] != 0);
                    }
                }
                if lo == 0 {
                    assert forall|r: int| 0 <= r < b.len() implies #[trigger] b[r] == 0 by {
                        if r < a.len() {
                            assert(a[r] == 0);
                        }
                    }
                }
            }
            i = i + 1;
        }
        proof {
            assert(g@.subrange(0, i as int) =~= g@);
            self.dictionary.lemma_wf();
            lemma_least_id(self.dictionary@, g@, lo);
        }
        self.dictionary.get(lo)
    }

    /// The greatest non-null value among the rows `row_ids`, or `None` where all of them are NULL.
    pub fn max(&self, row_ids: &[u32]) -> (o: Option<&str>)
        requires
            self.wf(),
            rows_in_range(row_ids@, self@.len()),
        ensures
            is_max_of(gather(self@, row_ids@), opt_view(o)),
    {
        let g = self.ids_at(row_ids);
        let mut hi: u32 = 0;
        let mut i: usize = 0;
        while i < g.len()
            invariant
                i <= g@.len(),
                self.wf(),
                ids_in_range(self.dictionary@, g@),
                decode_all(self.dictionary@, g@) == gather(self@, row_ids@),
                greatest_id(g@.subrange(0, i as int), hi),
            decreases g@.len() - i,
        {
            let ghost a = g@.subrange(0, i as int);
            let ghost b = g@.subrange(0, i + 1);
            let ghost prev = hi;
            let e = g[i];
            if e > hi {
                hi = e;
            }
            proof {
                assert forall|r: int| 0 <= r < a.len() implies b[r] == #[trigger] a[r] by {}
                assert(b[i as int] == e);
                if prev > 0 {
                    let k = choose|k: int| 0 <= k < a.len() && a[k] == prev;
                    assert(b[k] == prev);
                }
                assert forall|r: int| 0 <= r < b.len() implies #[trigger] b[r] <= hi by {
                    if r < a.len() {
                        assert(a[r] <= prev);
                    }
                }
            }
            i = i + 1;
        }
        proof {
            assert(g@.subrange(0, i as int) =~= g@);
            self.dictionary.lemma_wf();
            lemma_greatest_id(self.dictionary@, g@, hi);
        }
        self.dictionary.get(hi)
    }

    /// Adds to `dst` the values found at the rows `row_ids`, NULL among them.
    pub fn distinct_values<'a>(&'a self, row_ids: &[u32], dst: ValueSet<'a>) -> (out: ValueSet<'a>)
        requires
            self.wf(),
            dst.wf(),
            rows_in_range(row_ids@, self@.len()),
        ensures
            out.wf(),
            out@ == dst@.union(gather(self@, row_ids@).to_set()),
    {
        let g = self.ids_at(row_ids);
        let ghost col = decode_all(self.dictionary@, g@);
        let mut out = dst;
        let mut i: usize = 0;
        assert(out@ =~= dst@.union(col.subrange(0, 0).to_set()));
        while i < g.len()
            invariant
                i <= g@.len(),
                out.wf(),
                col == decode_all(self.dictionary@, g@),
                col == gather(self@, row_ids@),
                out@ == dst@.union(col.subrange(0, i as int).to_set()),
            decreases g@.len() - i,
        {
            let v = self.dictionary.get(g[i]);
            out.insert(v);
            proof {
                let a = col.subrange(0, i as int);
                let b = col.subrange(0, i + 1);
                assert(b =~= a.push(opt_view(v)));
                assert forall|x: Option<Seq<char>>| b.to_set().contains(x) <==> a.to_set().insert(
                    opt_view(v),
                ).contains(x) by {
                    if b.to_set().contains(x) {
                        let k = choose|k: int| 0 <= k < b.len() && b[k] == x;
                        if k < a.len() {
                            assert(a[k] == x);
                        }
                    }
                    if a.to_set().contains(x) {
                        let k = choose|k: int| 0 <= k < a.len() && a[k] == x;
                        assert(b[k] == x);
                    }
                    if x == opt_view(v) {
                        assert(b[a.len() as int] == x);
                    }
                }
                assert(out@ =~= dst@.union(b.to_set()));
            }
            i = i + 1;
        }
        assert(col.subrange(0, i as int) =~= col);
        out
    }

    /// Whether some row holds a non-null value that is not in `values`. Goes
    /// through the dictionary in order and stops at the first entry that
    /// has a row and is not in `values`.
    pub fn has_other_non_null_values(&self, values: &StringSet) -> (b: bool)
        requires
            self.wf(),
            values.wf(),
        ensures
            b == has_other(self@, values@.to_set()),
    {
        let ghost d = self.dictionary@;
        let ghost ids = self.ids();
        let ghost col = self@;
        proof {
            self.dictionary.lemma_wf();
            lemma_expand_len(self.runs@);
        }
        let mut e: usize = 1;
        while e < self.row_ids_by_id.len()
            invariant
                1 <= e <= d.len() + 1,
                self.wf(),
                values.wf(),
                d == self.dictionary@,
                ids == self.ids(),
                col == self@,
                d.len() <= u32::MAX,
                ids.len() == col.len(),
                forall|f: int|
                    1 <= f < e && rows_with_id(ids, f as u32) != Set::<u32>::empty()
                        ==> values@.to_set().contains(#[trigger] d[f - 1]),
            decreases d.len() + 1 - e,
        {
            if !self.row_ids_by_id[e].is_empty() && !values.contains(self.dictionary.entry(e - 1)) {
                proof {
                    let rows = rows_with_id(ids, e as u32);
                    assert(!(rows =~= Set::<u32>::empty()));
                    let r = choose|r: u32| rows.contains(r);
                    assert(col[r as int] == decode(d, e as u32));
                    assert(col[r as int] is Some && !values@.to_set().contains(col[r as int]->0));
                }
                return true;
            }
            e = e + 1;
        }
        proof {
            if has_other(col, values@.to_set()) {
                let r = choose|r: int|
                    0 <= r < col.len() && #[trigger] col[r] is Some && !values@.to_set().contains(
                        col[r]->0,
                    );
                let f = ids[r];
                assert(f <= d.len());
                assert(rows_with_id(ids, f).contains(r as u32));
                assert(values@.to_set().contains(d[f - 1]));
            }
        }
        false
    }

    /// Adds to `dst` the rows whose value is not NULL and stands in the
    /// relation `op` to `value`: the union of the indexed rows of every
    /// dictionary entry that does.
    pub fn row_ids_filter(&self, value: &str, op: &Operator, dst: RowIDs) -> (out: RowIDs)
        requires
            self.wf(),
            dst.wf(),
        ensures
            out.wf(),
            out@ == dst@.union(filter_rows(self@, *op, value@)),
    {
        let q = self.dictionary.predicate(op, value);
        let ghost d = self.dictionary@;
        let ghost ids = self.ids();
        proof {
            self.dictionary.lemma_wf();
            lemma_expand_len(self.runs@);
        }
        let mut out = dst;
        let mut e: u64 = q.lo;
        assert(out@ =~= dst@.union(
            Set::new(|r: u32| r < ids.len() && q.lo <= ids[r as int] < e && q.admits(ids[r as int])),
        ));
        while e <= q.hi
            invariant
                self.wf(),
                out.wf(),
                d == self.dictionary@,
                ids == self.ids(),
                d.len() <= u32::MAX,
                q.stands_for(d, *op, value@),
                q.lo <= e,
                q.lo <= q.hi ==> e <= q.hi + 1,
                out@ == dst@.union(
                    Set::new(
                        |r: u32| r < ids.len() && q.lo <= ids[r as int] < e && q.admits(ids[r as int]),
                    ),
                ),
            decreases q.hi + 1 - e,
        {
            let ghost prev = out@;
            if e != q.skip {
                out.union_in_place(&self.row_ids_by_id[e as usize]);
            }
            proof {
                assert(self.row_ids_by_id@[e as int]@ == rows_with_id(ids, e as u32));
                assert(out@ =~= dst@.union(
                    Set::new(
                        |r: u32|
                            r < ids.len() && q.lo <= ids[r as int] < e + 1 && q.admits(ids[r as int]),
                    ),
                ));
            }
            e = e + 1;
        }
        proof {
            let col = self@;
            assert forall|r: u32| filter_rows(col, *op, value@).contains(r) <==> (r < ids.len()
                && q.lo <= ids[r as int] < e && q.admits(ids[r as int])) by {
                if r < ids.len() {
                    assert(ids[r as int] <= d.len());
                    assert(col[r as int] == decode(d, ids[r as int]));
                }
            }
            assert(out@ =~= dst@.union(filter_rows(col, *op, value@)));
        }
        out
    }

    /// The rows of each encoded id, as the index keeps them: the set at
    /// place `e` holds the rows whose value is the one that `e` stands for,
    /// and the set at place 0 the NULL rows.
    pub fn group_row_ids(&self) -> (out: Vec<&RowIDs>)
        requires
            self.wf(),
        ensures
            out@.len() == self.dictionary().len() + 1,
            forall|e: int|
                0 <= e < out@.len() ==> (#[trigger] out@[e]).wf() && out@[e]@ == rows_with(
                    self@,
                    decode(self.dictionary(), e as u32),
                ),
    {
        let mut out: Vec<&RowIDs> = Vec::with_capacity(self.row_ids_by_id.len());
        let mut e: usize = 0;
        proof {
            self.dictionary.lemma_wf();
            lemma_expand_len(self.runs@);
        }
        while e < self.row_ids_by_id.len()
            invariant
                e <= self.row_ids_by_id@.len(),
                self.wf(),
                out@.len() == e,
                forall|k: int| 0 <= k < e ==> *(#[trigger] out@[k]) == self.row_ids_by_id@[k],
            decreases self.row_ids_by_id@.len() - e,
        {
            out.push(&self.row_ids_by_id[e]);
            e = e + 1;
        }
        proof {
            assert forall|k: int| 0 <= k < out@.len() implies (#[trigger] out@[k]).wf() && out@[k]@
                == rows_with(self@, decode(self.dictionary@, k as u32)) by {
                assert(*out@[k] == self.row_ids_by_id@[k]);
                lemma_rows_with_id(self.dictionary@, self.ids(), k as u32);
            }
        }
        out
    }

    /// The bytes that the column holds: the dictionary's strings, eight
    /// bytes for each run and four for each row in the index.
    pub open spec fn spec_size(&self) -> nat {
        total_bytes(self.dictionary()) + 8 * self.runs().len() + 4 * self.ids().len()
    }

    /// The bytes that the column holds, the dictionary included, up to the
    /// greatest 64-bit number.
    pub fn size(&self) -> (n: u64)
        requires
            self.wf(),
        ensures
            n == saturated(self.spec_size()),
    {
        let d = self.dictionary.byte_len();
        let runs = self.runs.len() as u64;
        let rows: u64 = 4 * (self.num_rows as u64);
        if runs > (u64::MAX - rows) / 8 {
            return u64::MAX;
        }
        let fixed: u64 = 8 * runs + rows;
        if u64::MAX - d < fixed {
            u64::MAX
        } else {
            d + fixed
        }
    }

    /// The dictionary's entries in order.
    pub fn dictionary_entries(&self) -> (v: Vec<&str>)
        ensures
            v@.len() == self.dictionary().len(),
            forall|i: int| 0 <= i < v@.len() ==> (#[trigger] v@[i])@ == self.dictionary()[i],
    {
        self.dictionary.to_vec()
    }

    /// The runs in order: pairs of an encoded id and a number of rows.
    pub fn to_runs(&self) -> (v: Vec<(u32, u32)>)
        ensures
            v@ == self.runs(),
    {
        let mut v: Vec<(u32, u32)> = Vec::with_capacity(self.runs.len());
        let mut i: usize = 0;
        while i < self.runs.len()
            invariant
                i <= self.runs@.len(),
                v@ == self.runs@.subrange(0, i as int),
            decreases self.runs@.len() - i,
        {
            v.push(self.runs[i]);
            assert(v@ =~= self.runs@.subrange(0, i + 1));
            i = i + 1;
        }
        assert(v@ =~= self.runs@);
        v
    }
}

/// The length of the last run is at most the number of rows.
proof fn lemma_last_run_len(runs: Seq<(u32, u32)>)
    requires
        runs.len() > 0,
    ensures
        runs.last().1 <= expand(runs).len(),
{
}

} // verus!
