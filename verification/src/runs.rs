//! Run lists: a sequence of encoded ids written as (id, length) pairs.

use vstd::prelude::*;
use crate::model::repeat;

verus! {

/// The ids that the run list stands for, one for each row.
pub open spec fn expand(runs: Seq<(u32, u32)>) -> Seq<u32>
    decreases runs.len(),
{
    if runs.len() == 0 {
        Seq::empty()
    } else {
        expand(runs.drop_last()) + repeat(runs.last().0, runs.last().1 as nat)
    }
}

/// Whether every run has a row, and no two neighbours share an id.
pub open spec fn runs_wf(runs: Seq<(u32, u32)>) -> bool {
    &&& forall|k: int| 0 <= k < runs.len() ==> (#[trigger] runs[k]).1 >= 1
    &&& forall|k: int| 0 <= k < runs.len() - 1 ==> (#[trigger] runs[k]).0 != runs[k + 1].0
}

/// The sum of the run lengths.
pub open spec fn total_len(runs: Seq<(u32, u32)>) -> nat
    decreases runs.len(),
{
    if runs.len() == 0 {
        0
    } else {
        total_len(runs.drop_last()) + runs.last().1 as nat
    }
}

/// The row at which run `k` starts: the rows of the runs before it.
pub open spec fn run_start(runs: Seq<(u32, u32)>, k: int) -> nat {
    total_len(runs.subrange(0, k))
}

/// A run list stands for as many rows as its lengths sum to.
pub proof fn lemma_expand_len(runs: Seq<(u32, u32)>)
    ensures
        expand(runs).len() == total_len(runs),
    decreases runs.len(),
{
    if runs.len() > 0 {
        lemma_expand_len(runs.drop_last());
    }
}

/// A new run at the end stands for its id repeated.
pub proof fn lemma_expand_push(runs: Seq<(u32, u32)>, run: (u32, u32))
    ensures
        expand(runs.push(run)) == expand(runs) + repeat(run.0, run.1 as nat),
        total_len(runs.push(run)) == total_len(runs) + run.1,
{
    assert(runs.push(run).drop_last() =~= runs);
}

/// A longer last run stands for more rows of its id.
pub proof fn lemma_expand_extend(runs: Seq<(u32, u32)>, count: u32)
    requires
        runs.len() > 0,
        runs.last().1 + count <= u32::MAX,
    ensures
        expand(runs.update(runs.len() - 1, (runs.last().0, (runs.last().1 + count) as u32)))
            == expand(runs) + repeat(runs.last().0, count as nat),
{
    let id = runs.last().0;
    let len = runs.last().1;
    let longer = runs.update(runs.len() - 1, (id, (len + count) as u32));
    assert(longer.drop_last() =~= runs.drop_last());
    assert(repeat(id, (len + count) as nat) =~= repeat(id, len as nat) + repeat(id, count as nat));
    assert(expand(longer) =~= expand(runs) + repeat(id, count as nat));
}

/// Where the runs start: the first at row 0, each next one where the one
/// before it ends, and the end of the last is the number of rows.
pub proof fn lemma_run_start(runs: Seq<(u32, u32)>, k: int)
    requires
        0 <= k < runs.len(),
    ensures
        run_start(runs, 0) == 0,
        run_start(runs, k + 1) == run_start(runs, k) + runs[k].1,
        run_start(runs, runs.len() as int) == total_len(runs),
        run_start(runs, k + 1) <= total_len(runs),
    decreases runs.len() - k,
{
    assert(runs.subrange(0, k + 1).drop_last() =~= runs.subrange(0, k));
    assert(runs.subrange(0, runs.len() as int) =~= runs);
    if k + 1 < runs.len() {
        lemma_run_start(runs, k + 1);
    }
}

/// Every row of run `k` has the id of run `k`.
pub proof fn lemma_expand_index(runs: Seq<(u32, u32)>, k: int, r: int)
    requires
        0 <= k < runs.len(),
        run_start(runs, k) <= r < run_start(runs, k) + runs[k].1,
    ensures
        r < expand(runs).len(),
        expand(runs)[r] == runs[k].0,
    decreases runs.len(),
{
    let init = runs.drop_last();
    lemma_expand_len(init);
    lemma_expand_len(runs);
    if k == runs.len() - 1 {
        assert(runs.subrange(0, k) =~= init);
    } else {
        assert(init.subrange(0, k) =~= runs.subrange(0, k));
        lemma_expand_index(init, k, r);
    }
}

} // verus!
