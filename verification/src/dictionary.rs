//! The sorted dictionary of a column's distinct strings.

use vstd::prelude::*;
use crate::lex::{
    compare, lemma_str_lt_asymmetric, lemma_str_lt_irreflexive, lemma_str_lt_total,
    lemma_str_lt_transitive, str_lt, Rel,
};
use crate::model::{saturated, total_bytes};
use crate::operator::Operator;
use crate::value::opt_view;

verus! {

/// Whether `d` ascends strictly in the lexicographic order.
pub open spec fn sorted(d: Seq<Seq<char>>) -> bool {
    forall|i: int, j: int| 0 <= i < j < d.len() ==> str_lt(#[trigger] d[i], #[trigger] d[j])
}

/// The logical value that the encoded id `e` stands for: NULL for 0, the
/// entry at place `e - 1` otherwise, and nothing beyond the dictionary.
pub open spec fn decode(d: Seq<Seq<char>>, e: u32) -> Option<Seq<char>> {
    if 1 <= e <= d.len() {
        Some(d[e - 1])
    } else {
        None
    }
}

/// The encoded id of `s`: its place in the dictionary counted from 1, or 0
/// where the dictionary does not hold it.
pub open spec fn encoded_id(d: Seq<Seq<char>>, s: Seq<char>) -> int {
    if d.contains(s) {
        d.index_of(s) + 1
    } else {
        0
    }
}

/// The encoded id of a logical value: 0 for NULL.
pub open spec fn encoded_id_of(d: Seq<Seq<char>>, v: Option<Seq<char>>) -> int {
    match v {
        Some(s) => encoded_id(d, s),
        None => 0,
    }
}

/// A sorted dictionary holds no string twice.
pub proof fn lemma_sorted_distinct(d: Seq<Seq<char>>)
    requires
        sorted(d),
    ensures
        d.no_duplicates(),
{
    assert forall|i: int, j: int| 0 <= i < d.len() && 0 <= j < d.len() && i != j implies d[i]
        != d[j] by {
        if i < j {
            assert(str_lt(d[i], d[j]));
            lemma_str_lt_irreflexive(d[i]);
        } else {
            assert(str_lt(d[j], d[i]));
            lemma_str_lt_irreflexive(d[i]);
        }
    }
}

/// In a sorted dictionary the entry at place `i` has the encoded id `i + 1`.
pub proof fn lemma_encoded_id_at(d: Seq<Seq<char>>, i: int)
    requires
        sorted(d),
        0 <= i < d.len(),
    ensures
        encoded_id(d, d[i]) == i + 1,
        d.contains(d[i]),
{
    lemma_sorted_distinct(d);
    assert(d.contains(d[i]));
    let k = d.index_of(d[i]);
    assert(0 <= k < d.len() && d[k] == d[i]);
}

/// A test on encoded ids that stands for a filter predicate: it admits the
/// ids from `lo` to `hi`, but for `skip`. It never admits 0, the id of NULL.
#[derive(Clone, Copy, Debug)]
pub struct IdPredicate {
    pub lo: u64,
    pub hi: u64,
    pub skip: u64,
}

impl IdPredicate {
    /// Whether the predicate admits the encoded id `e`.
    pub open spec fn admits(self, e: u32) -> bool {
        1 <= self.lo <= e <= self.hi && e != self.skip
    }

    /// Whether the predicate stands for `op` against `literal` under the dictionary `d`.
    pub open spec fn stands_for(self, d: Seq<Seq<char>>, op: Operator, literal: Seq<char>) -> bool {
        &&& self.lo >= 1
        &&& self.hi <= d.len()
        &&& forall|e: u32| e <= d.len() ==> (self.admits(e) <==> op.selects(#[trigger] decode(d, e), literal))
    }

    /// Tests the encoded id `e`.
    pub fn test(&self, e: u32) -> (b: bool)
        requires
            self.lo >= 1,
        ensures
            b == self.admits(e),
    {
        self.lo <= e as u64 && e as u64 <= self.hi && e as u64 != self.skip
    }
}

/// A set of strings, kept as a sorted list. As the dictionary of a column it
/// gives the entry at place `i` the encoded id `i + 1`; the id 0 is kept for NULL.
pub struct StringSet {
    entries: Vec<String>,
}

impl View for StringSet {
    type V = Seq<Seq<char>>;

    closed spec fn view(&self) -> Seq<Seq<char>> {
        Seq::new(self.entries@.len(), |i: int| self.entries@[i]@)
    }
}

impl StringSet {
    /// The representation invariant: the entries ascend strictly, and every
    /// encoded id fits 32 bits.
    pub closed spec fn wf(&self) -> bool {
        &&& sorted(self@)
        &&& self@.len() <= u32::MAX
    }

    /// What `wf` says, for callers.
    pub proof fn lemma_wf(&self)
        requires
            self.wf(),
        ensures
            sorted(self@),
            self@.len() <= u32::MAX,
            self@.no_duplicates(),
    {
        lemma_sorted_distinct(self@);
    }

    /// An empty dictionary.
    pub fn new() -> (d: StringSet)
        ensures
            d.wf(),
            d@ == Seq::<Seq<char>>::empty(),
    {
        let d = StringSet { entries: Vec::new() };
        assert(d@ =~= Seq::<Seq<char>>::empty());
        d
    }

    /// The number of entries.
    pub fn len(&self) -> (n: usize)
        ensures
            n == self@.len(),
    {
        self.entries.len()
    }

    /// The entry at place `i`.
    pub fn entry(&self, i: usize) -> (s: &str)
        requires
            i < self@.len(),
        ensures
            s@ == self@[i as int],
    {
        self.entries[i].as_str()
    }

    /// The number of entries below `s`: the place where `s` stands or would stand.
    pub fn lower_bound(&self, s: &str) -> (p: usize)
        requires
            self.wf(),
        ensures
            p <= self@.len(),
            forall|i: int| 0 <= i < p ==> str_lt(#[trigger] self@[i], s@),
            forall|i: int| p <= i < self@.len() ==> !str_lt(#[trigger] self@[i], s@),
    {
        let mut lo: usize = 0;
        let mut hi: usize = self.entries.len();
        while lo < hi
            invariant
                lo <= hi <= self@.len(),
                self.wf(),
                forall|i: int| 0 <= i < lo ==> str_lt(#[trigger] self@[i], s@),
                forall|i: int| hi <= i < self@.len() ==> !str_lt(#[trigger] self@[i], s@),
            decreases hi - lo,
        {
            let mid: usize = lo + (hi - lo) / 2;
            let r = compare(self.entry(mid), s);
            if r == Rel::Less {
                proof {
                    assert forall|i: int| 0 <= i < mid + 1 implies str_lt(
                        #[trigger] self@[i],
                        s@,
                    ) by {
                        if i < mid {
                            assert(str_lt(self@[i], self@[mid as int]));
                            lemma_str_lt_transitive(self@[i], self@[mid as int], s@);
                        }
                    }
                }
                lo = mid + 1;
            } else {
                proof {
                    lemma_str_lt_irreflexive(s@);
                    assert(!str_lt(self@[mid as int], s@));
                    assert forall|i: int| mid <= i < self@.len() implies !str_lt(
                        #[trigger] self@[i],
                        s@,
                    ) by {
                        if i > mid && str_lt(self@[i], s@) {
                            assert(str_lt(self@[mid as int], self@[i]));
                            lemma_str_lt_transitive(self@[mid as int], self@[i], s@);
                        }
                    }
                }
                hi = mid;
            }
        }
        lo
    }

    /// The encoded id of `s`, or 0 where the dictionary does not hold it.
    pub fn find(&self, s: &str) -> (id: u32)
        requires
            self.wf(),
        ensures
            id == encoded_id(self@, s@),
            id <= self@.len(),
            id > 0 <==> self@.contains(s@),
    {
        let p = self.lower_bound(s);
        if p < self.entries.len() && compare(self.entry(p), s) == Rel::Same {
            proof {
                lemma_encoded_id_at(self@, p as int);
            }
            (p + 1) as u32
        } else {
            proof {
                if self@.contains(s@) {
                    let k = choose|k: int| 0 <= k < self@.len() && self@[k] == s@;
                    lemma_str_lt_irreflexive(s@);
                    assert(k >= p);
                    if k > p {
                        assert(str_lt(self@[p as int], self@[k]));
                    }
                }
            }
            0
        }
    }

    /// The string that the encoded id `e` stands for, if it stands for one.
    pub fn get(&self, e: u32) -> (o: Option<&str>)
        ensures
            opt_view(o) == decode(self@, e),
    {
        if e >= 1 && (e as usize) <= self.entries.len() {
            Some(self.entry((e - 1) as usize))
        } else {
            None
        }
    }

    /// Adds `s` to the dictionary, unless it is there already.
    pub fn insert(&mut self, s: &str)
        requires
            old(self).wf(),
            old(self)@.len() < u32::MAX,
        ensures
            final(self).wf(),
            final(self)@.to_set() == old(self)@.to_set().insert(s@),
            final(self)@.len() <= old(self)@.len() + 1,
            final(self)@.len() >= old(self)@.len(),
    {
        let p = self.lower_bound(s);
        if p < self.entries.len() && compare(self.entry(p), s) == Rel::Same {
            assert(self@.to_set() =~= old(self)@.to_set().insert(s@));
        } else {
            let ghost before = self@;
            proof {
                if p < before.len() {
                    lemma_str_lt_total(before[p as int], s@);
                }
            }
            self.entries.insert(p, s.to_owned());
            assert(self@ =~= before.insert(p as int, s@));
            proof {
                let after = self@;
                assert forall|i: int, j: int| 0 <= i < j < after.len() implies str_lt(
                    #[trigger] after[i],
                    #[trigger] after[j],
                ) by {
                    let oi = if i < p { i } else { i - 1 };
                    let oj = if j < p { j } else { j - 1 };
                    if i == p {
                        if oj > p {
                            assert(str_lt(before[p as int], before[oj]));
                            lemma_str_lt_transitive(s@, before[p as int], before[oj]);
                        }
                    } else if j == p {
                        assert(str_lt(before[oi], s@));
                    } else {
                        assert(str_lt(before[oi], before[oj]));
                    }
                }
                assert forall|x: Seq<char>| after.to_set().contains(x) <==> before.to_set().insert(
                    s@,
                ).contains(x) by {
                    if after.to_set().contains(x) {
                        let k = choose|k: int| 0 <= k < after.len() && after[k] == x;
                        if k < p {
                            assert(before[k] == x);
                        } else if k > p {
                            assert(before[k - 1] == x);
                        }
                    }
                    if before.to_set().contains(x) {
                        let k = choose|k: int| 0 <= k < before.len() && before[k] == x;
                        if k < p {
                            assert(after[k] == x);
                        } else {
                            assert(after[k + 1] == x);
                        }
                    }
                    if x == s@ {
                        assert(after[p as int] == x);
                    }
                }
                assert(after.to_set() =~= before.to_set().insert(s@));
            }
        }
    }

    /// Whether the set holds `s`.
    pub fn contains(&self, s: &str) -> (b: bool)
        requires
            self.wf(),
        ensures
            b == self@.contains(s@),
    {
        self.find(s) > 0
    }

    /// Turns a filter predicate on strings into a test on encoded ids: one
    /// binary search for `literal`, then bounds on either side of its place.
    pub fn predicate(&self, op: &Operator, literal: &str) -> (q: IdPredicate)
        requires
            self.wf(),
        ensures
            q.stands_for(self@, *op, literal@),
    {
        let n = self.entries.len() as u64;
        let p = self.lower_bound(literal);
        let exact = p < self.entries.len() && compare(self.entry(p), literal) == Rel::Same;
        let at: u64 = p as u64 + 1;
        let past: u64 = if exact { at } else { p as u64 };
        let q = match op {
            Operator::Equal => if exact {
                IdPredicate { lo: at, hi: at, skip: 0 }
            } else {
                IdPredicate { lo: 1, hi: 0, skip: 0 }
            },
            Operator::NotEqual => IdPredicate { lo: 1, hi: n, skip: if exact { at } else { 0 } },
            Operator::LT => IdPredicate { lo: 1, hi: p as u64, skip: 0 },
            Operator::LTE => IdPredicate { lo: 1, hi: past, skip: 0 },
            Operator::GT => IdPredicate { lo: past + 1, hi: n, skip: 0 },
            Operator::GTE => IdPredicate { lo: at, hi: n, skip: 0 },
        };
        proof {
            let d = self@;
            let v = literal@;
            assert forall|e: u32| e <= d.len() implies (q.admits(e) <==> op.selects(
                #[trigger] decode(d, e),
                v,
            )) by {
                if e >= 1 {
                    let i = e - 1;
                    let x = d[i];
                    lemma_str_lt_irreflexive(v);
                    lemma_str_lt_total(x, v);
                    if i < p {
                        assert(str_lt(d[i], v));
                        lemma_str_lt_asymmetric(x, v);
                    } else {
                        assert(!str_lt(d[i], v));
                        if i > p {
                            assert(str_lt(d[p as int], d[i]));
                            if x == v {
                                assert(!str_lt(d[p as int], v));
                            }
                        }
                    }
                }
            }
        }
        q
    }

    /// The bytes that the strings take together, up to the greatest 64-bit number.
    pub fn byte_len(&self) -> (n: u64)
        ensures
            n == saturated(total_bytes(self@)),
    {
        let mut n: u64 = 0;
        let mut i: usize = 0;
        let ghost d = self@;
        assert(d.subrange(0, 0) =~= Seq::<Seq<char>>::empty());
        while i < self.entries.len()
            invariant
                i <= d.len(),
                d == self@,
                d.len() == self.entries@.len(),
                n == saturated(total_bytes(d.subrange(0, i as int))),
            decreases d.len() - i,
        {
            let len = self.entry(i).as_bytes().len() as u64;
            proof {
                assert(d.subrange(0, i + 1).drop_last() =~= d.subrange(0, i as int));
                assert(d.subrange(0, i + 1).last() == d[i as int]);
                assert(len == vstd::utf8::encode_utf8(d[i as int]).len());
                assert(total_bytes(d.subrange(0, i + 1)) == total_bytes(d.subrange(0, i as int))
                    + len);
            }
            if u64::MAX - n < len {
                n = u64::MAX;
            } else {
                n = n + len;
            }
            i = i + 1;
        }
        assert(d.subrange(0, i as int) =~= d);
        n
    }

    /// The strings in order.
    pub fn to_vec(&self) -> (v: Vec<&str>)
        ensures
            v@.len() == self@.len(),
            forall|i: int| 0 <= i < v@.len() ==> (#[trigger] v@[i])@ == self@[i],
    {
        let mut v: Vec<&str> = Vec::with_capacity(self.entries.len());
        let mut i: usize = 0;
        while i < self.entries.len()
            invariant
                i <= self@.len(),
                self@.len() == self.entries@.len(),
                v@.len() == i,
                forall|k: int| 0 <= k < i ==> (#[trigger] v@[k])@ == self@[k],
            decreases self@.len() - i,
        {
            v.push(self.entry(i));
            i = i + 1;
        }
        v
    }
}

} // verus!
