//! A set of logical values.

use vstd::prelude::*;
use crate::lex::{
    compare, lemma_str_lt_asymmetric, lemma_str_lt_irreflexive, lemma_str_lt_total,
    lemma_str_lt_transitive, str_lt, Rel,
};
use crate::value::{opt_view, opt_views};

verus! {

/// The order of logical values: NULL comes first, then the strings in their order.
pub open spec fn value_lt(a: Option<Seq<char>>, b: Option<Seq<char>>) -> bool {
    match (a, b) {
        (None, None) => false,
        (None, Some(_)) => true,
        (Some(_), None) => false,
        (Some(x), Some(y)) => str_lt(x, y),
    }
}

/// Whether `s` ascends strictly in the order of logical values.
pub open spec fn values_ascending(s: Seq<Option<Seq<char>>>) -> bool {
    forall|i: int, j: int| 0 <= i < j < s.len() ==> value_lt(#[trigger] s[i], #[trigger] s[j])
}

proof fn lemma_value_lt_transitive(
    a: Option<Seq<char>>,
    b: Option<Seq<char>>,
    c: Option<Seq<char>>,
)
    requires
        value_lt(a, b),
        value_lt(b, c),
    ensures
        value_lt(a, c),
{
    if a is Some {
        lemma_str_lt_transitive(a->0, b->0, c->0);
    }
}

proof fn lemma_value_lt_total(a: Option<Seq<char>>, b: Option<Seq<char>>)
    ensures
        a == b || value_lt(a, b) || value_lt(b, a),
        !(value_lt(a, b) && value_lt(b, a)),
        !value_lt(a, a),
{
    if a is Some && b is Some {
        lemma_str_lt_total(a->0, b->0);
        if str_lt(a->0, b->0) {
            lemma_str_lt_asymmetric(a->0, b->0);
        }
    }
    if a is Some {
        lemma_str_lt_irreflexive(a->0);
    }
}

/// Compares two logical values.
fn compare_values(a: Option<&str>, b: Option<&str>) -> (r: Rel)
    ensures
        r == Rel::Same <==> opt_view(a) == opt_view(b),
        r == Rel::Less <==> value_lt(opt_view(a), opt_view(b)),
{
    proof {
        lemma_value_lt_total(opt_view(a), opt_view(b));
    }
    match (a, b) {
        (None, None) => Rel::Same,
        (None, Some(_)) => Rel::Less,
        (Some(_), None) => Rel::Greater,
        (Some(x), Some(y)) => compare(x, y),
    }
}

/// A set of logical values, kept as an ascending list: NULL first, if it is
/// there, then the strings in lexicographic order.
#[derive(Debug)]
pub struct ValueSet<'a> {
    items: Vec<Option<&'a str>>,
}

impl<'a> View for ValueSet<'a> {
    type V = Set<Option<Seq<char>>>;

    closed spec fn view(&self) -> Set<Option<Seq<char>>> {
        opt_views(self.items@).to_set()
    }
}

impl<'a> ValueSet<'a> {
    /// The members in ascending order.
    pub closed spec fn members(&self) -> Seq<Option<Seq<char>>> {
        opt_views(self.items@)
    }

    /// The representation invariant: the members ascend strictly.
    pub closed spec fn wf(&self) -> bool {
        values_ascending(opt_views(self.items@))
    }

    /// The members are exactly the elements of the set, each once.
    pub proof fn lemma_members(&self)
        requires
            self.wf(),
        ensures
            values_ascending(self.members()),
            self.members().no_duplicates(),
            self.members().to_set() == self@,
            self@.finite(),
            self@.len() == self.members().len(),
    {
        let m = self.members();
        assert forall|i: int, j: int| 0 <= i < m.len() && 0 <= j < m.len() && i != j implies m[i]
            != m[j] by {
            lemma_value_lt_total(m[i], m[j]);
            if i < j {
                assert(value_lt(m[i], m[j]));
            } else {
                assert(value_lt(m[j], m[i]));
            }
        }
        m.unique_seq_to_set();
        vstd::seq_lib::seq_to_set_is_finite(m);
    }

    /// An empty set.
    pub fn new() -> (s: ValueSet<'a>)
        ensures
            s.wf(),
            s@ == Set::<Option<Seq<char>>>::empty(),
    {
        let s = ValueSet { items: Vec::new() };
        assert(opt_views(s.items@).to_set() =~= Set::<Option<Seq<char>>>::empty());
        s
    }

    /// The number of values in the set.
    pub fn len(&self) -> (n: usize)
        requires
            self.wf(),
        ensures
            n == self@.len(),
    {
        proof {
            self.lemma_members();
        }
        self.items.len()
    }

    /// The number of members below `v`: the place where it stands or would stand.
    fn position(&self, v: Option<&str>) -> (p: usize)
        requires
            self.wf(),
        ensures
            p <= self.members().len(),
            forall|i: int| 0 <= i < p ==> value_lt(#[trigger] self.members()[i], opt_view(v)),
            forall|i: int|
                p <= i < self.members().len() ==> !value_lt(
                    #[trigger] self.members()[i],
                    opt_view(v),
                ),
    {
        let ghost m = opt_views(self.items@);
        let mut lo: usize = 0;
        let mut hi: usize = self.items.len();
        while lo < hi
            invariant
                lo <= hi <= m.len(),
                m == opt_views(self.items@),
                values_ascending(m),
                forall|i: int| 0 <= i < lo ==> value_lt(#[trigger] m[i], opt_view(v)),
                forall|i: int| hi <= i < m.len() ==> !value_lt(#[trigger] m[i], opt_view(v)),
            decreases hi - lo,
        {
            let mid: usize = lo + (hi - lo) / 2;
            let r = compare_values(self.items[mid], v);
            assert(m[mid as int] == opt_view(self.items@[mid as int]));
            if r == Rel::Less {
                proof {
                    assert forall|i: int| 0 <= i < mid + 1 implies value_lt(
                        #[trigger] m[i],
                        opt_view(v),
                    ) by {
                        if i < mid {
                            assert(value_lt(m[i], m[mid as int]));
                            lemma_value_lt_transitive(m[i], m[mid as int], opt_view(v));
                        }
                    }
                }
                lo = mid + 1;
            } else {
                proof {
                    assert forall|i: int| mid <= i < m.len() implies !value_lt(
                        #[trigger] m[i],
                        opt_view(v),
                    ) by {
                        if i > mid && value_lt(m[i], opt_view(v)) {
                            assert(value_lt(m[mid as int], m[i]));
                            lemma_value_lt_transitive(m[mid as int], m[i], opt_view(v));
                        }
                    }
                }
                hi = mid;
            }
        }
        lo
    }

    /// Whether the set holds `v`.
    pub fn contains(&self, v: Option<&str>) -> (b: bool)
        requires
            self.wf(),
        ensures
            b == self@.contains(opt_view(v)),
    {
        let p = self.position(v);
        let ghost m = opt_views(self.items@);
        if p < self.items.len() && compare_values(self.items[p], v) == Rel::Same {
            assert(m[p as int] == opt_view(v));
            true
        } else {
            proof {
                if m.to_set().contains(opt_view(v)) {
                    let k = choose|k: int| 0 <= k < m.len() && m[k] == opt_view(v);
                    lemma_value_lt_total(opt_view(v), opt_view(v));
                    assert(!value_lt(m[k], opt_view(v)));
                    assert(k >= p);
                    if k > p {
                        assert(value_lt(m[p as int], m[k]));
                    }
                    assert(m[p as int] == opt_view(self.items@[p as int]));
                }
            }
            false
        }
    }

    /// Adds `v` to the set.
    pub fn insert(&mut self, v: Option<&'a str>)
        requires
            old(self).wf(),
        ensures
            final(self).wf(),
            final(self)@ == old(self)@.insert(opt_view(v)),
    {
        let p = self.position(v);
        let ghost before = opt_views(self.items@);
        let ghost x = opt_view(v);
        if p < self.items.len() && compare_values(self.items[p], v) == Rel::Same {
            assert(before[p as int] == x);
            assert(before.to_set() =~= before.to_set().insert(x));
        } else {
            proof {
                if p < before.len() {
                    assert(before[p as int] == opt_view(self.items@[p as int]));
                    lemma_value_lt_total(before[p as int], x);
                }
            }
            self.items.insert(p, v);
            let ghost after = opt_views(self.items@);
            assert(after =~= before.insert(p as int, x));
            proof {
                assert forall|i: int, j: int| 0 <= i < j < after.len() implies value_lt(
                    #[trigger] after[i],
                    #[trigger] after[j],
                ) by {
                    let oi = if i < p { i } else { i - 1 };
                    let oj = if j < p { j } else { j - 1 };
                    if i == p {
                        if oj > p {
                            assert(value_lt(before[p as int], before[oj]));
                            lemma_value_lt_transitive(x, before[p as int], before[oj]);
                        }
                    } else if j == p {
                        assert(value_lt(before[oi], x));
                    } else {
                        assert(value_lt(before[oi], before[oj]));
                    }
                }
                assert forall|y: Option<Seq<char>>| after.to_set().contains(y)
                    <==> before.to_set().insert(x).contains(y) by {
                    if after.to_set().contains(y) {
                        let k = choose|k: int| 0 <= k < after.len() && after[k] == y;
                        if k < p {
                            assert(before[k] == y);
                        } else if k > p {
                            assert(before[k - 1] == y);
                        }
                    }
                    if before.to_set().contains(y) {
                        let k = choose|k: int| 0 <= k < before.len() && before[k] == y;
                        if k < p {
                            assert(after[k] == y);
                        } else {
                            assert(after[k + 1] == y);
                        }
                    }
                    if y == x {
                        assert(after[p as int] == y);
                    }
                }
                assert(after.to_set() =~= before.to_set().insert(x));
            }
        }
    }

    /// The values in ascending order.
    pub fn to_vec(&self) -> (v: Vec<Option<&'a str>>)
        ensures
            opt_views(v@) == self.members(),
    {
        let mut v: Vec<Option<&'a str>> = Vec::with_capacity(self.items.len());
        let mut i: usize = 0;
        while i < self.items.len()
            invariant
                i <= self.items@.len(),
                v@ == self.items@.subrange(0, i as int),
            decreases self.items@.len() - i,
        {
            v.push(self.items[i]);
            assert(v@ =~= self.items@.subrange(0, i + 1));
            i = i + 1;
        }
        assert(v@ =~= self.items@);
        v
    }
}

} // verus!
