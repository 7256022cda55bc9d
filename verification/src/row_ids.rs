//! A set of row ids, in one of two representations.

use vstd::prelude::*;

verus! {

/// Whether `s` is strictly ascending.
pub open spec fn ascending(s: Seq<u32>) -> bool {
    forall|i: int, j: int| 0 <= i < j < s.len() ==> s[i] < s[j]
}

/// An ascending sequence holds nothing twice, so it is as long as its set is large.
pub proof fn lemma_ascending_len(s: Seq<u32>)
    requires
        ascending(s),
    ensures
        s.no_duplicates(),
        s.to_set().finite(),
        s.to_set().len() == s.len(),
{
    assert(s.no_duplicates());
    s.unique_seq_to_set();
    vstd::seq_lib::seq_to_set_is_finite(s);
}

/// Pushing an element onto a sequence inserts it into the sequence's set.
pub proof fn lemma_push_to_set(s: Seq<u32>, x: u32)
    ensures
        s.push(x).to_set() == s.to_set().insert(x),
{
    let t = s.push(x);
    assert forall|y: u32| t.to_set().contains(y) <==> s.to_set().insert(x).contains(y) by {
        if t.to_set().contains(y) {
            let i = choose|i: int| 0 <= i < t.len() && t[i] == y;
            if i < s.len() {
                assert(s[i] == y);
            }
        }
        if s.to_set().contains(y) {
            let i = choose|i: int| 0 <= i < s.len() && s[i] == y;
            assert(t[i] == y);
        }
        if y == x {
            assert(t[s.len() as int] == y);
        }
    }
    assert(t.to_set() =~= s.to_set().insert(x));
}

/// The set of a prefix grows by one element with the prefix.
pub proof fn lemma_prefix_to_set(s: Seq<u32>, i: int)
    requires
        0 <= i < s.len(),
    ensures
        s.subrange(0, i + 1).to_set() == s.subrange(0, i).to_set().insert(s[i]),
{
    assert(s.subrange(0, i + 1) =~= s.subrange(0, i).push(s[i]));
    lemma_push_to_set(s.subrange(0, i), s[i]);
}

/// The greatest number of 64-bit words of a bitmap: enough for every row id.
pub const MAX_WORDS: usize = 0x400_0000;

/// Whether bit `k` of the word `w` is set.
pub open spec fn bit(w: u64, k: u64) -> bool {
    (w >> k) & 1 == 1
}

/// Whether a bitmap of the words `words` holds the row id `r`: bit `r % 64`
/// of word `r / 64`.
pub open spec fn bitmap_has(words: Seq<u64>, r: u32) -> bool {
    (r / 64) < words.len() && bit(words[(r / 64) as int], (r % 64) as u64)
}

/// The row ids of a bitmap.
pub open spec fn bitmap_set(words: Seq<u64>) -> Set<u32> {
    Set::new(|r: u32| bitmap_has(words, r))
}

proof fn lemma_bit_or(w: u64, k: u64, j: u64)
    requires
        k < 64,
        j < 64,
    ensures
        bit(w | (1u64 << k), j) == (bit(w, j) || j == k),
{
    assert((((w | (1u64 << k)) >> j) & 1 == 1) == (((w >> j) & 1 == 1) || j == k))
        by (bit_vector)
        requires
            k < 64,
            j < 64,
    ;
}

proof fn lemma_bit_zero(j: u64)
    requires
        j < 64,
    ensures
        !bit(0, j),
{
    assert((0u64 >> j) & 1 == 0) by (bit_vector)
        requires
            j < 64,
    ;
}

/// How a set of row ids is kept.
enum Repr {
    /// One bit for each row id from 0 up to 64 times the number of words.
    Bitmap(Vec<u64>),
    /// The row ids in ascending order, each once.
    Vector(Vec<u32>),
}

/// A set of row ids, kept as a bitmap or as an ascending list.
pub struct RowIDs {
    repr: Repr,
}

impl View for RowIDs {
    type V = Set<u32>;

    closed spec fn view(&self) -> Set<u32> {
        match self.repr {
            Repr::Bitmap(words) => bitmap_set(words@),
            Repr::Vector(ids) => ids@.to_set(),
        }
    }
}

/// The place of `row_id` in the ascending list `ids`: the number of
/// elements below it.
fn position(ids: &Vec<u32>, row_id: u32) -> (p: usize)
    requires
        ascending(ids@),
    ensures
        p <= ids@.len(),
        forall|i: int| 0 <= i < p ==> ids@[i] < row_id,
        forall|i: int| p <= i < ids@.len() ==> ids@[i] >= row_id,
{
    let mut lo: usize = 0;
    let mut hi: usize = ids.len();
    while lo < hi
        invariant
            lo <= hi <= ids@.len(),
            ascending(ids@),
            forall|i: int| 0 <= i < lo ==> ids@[i] < row_id,
            forall|i: int| hi <= i < ids@.len() ==> ids@[i] >= row_id,
        decreases hi - lo,
    {
        let mid: usize = lo + (hi - lo) / 2;
        if ids[mid] < row_id {
            lo = mid + 1;
        } else {
            hi = mid;
        }
    }
    lo
}

/// Inserts `row_id` into the ascending list `ids`, unless it is there.
fn vector_add(ids: &mut Vec<u32>, row_id: u32)
    requires
        ascending(old(ids)@),
    ensures
        ascending(final(ids)@),
        final(ids)@.to_set() == old(ids)@.to_set().insert(row_id),
{
    let n = ids.len();
    let ghost before = ids@;
    if n == 0 || ids[n - 1] < row_id {
        ids.push(row_id);
        proof {
            lemma_push_to_set(before, row_id);
        }
    } else {
        let p = position(ids, row_id);
        if ids[p] != row_id {
            ids.insert(p, row_id);
            assert(ids@.to_set() =~= before.to_set().insert(row_id)) by {
                assert forall|x: u32| before.to_set().insert(row_id).contains(x) implies ids@.to_set().contains(
                    x,
                ) by {
                    if x == row_id {
                        assert(ids@[p as int] == x);
                    } else {
                        let i = choose|i: int| 0 <= i < n && before[i] == x;
                        if i < p {
                            assert(ids@[i] == x);
                        } else {
                            assert(ids@[i + 1] == x);
                        }
                    }
                }
            }
        } else {
            assert(ids@.to_set() =~= before.to_set().insert(row_id));
        }
    }
}

/// Sets the bit of `row_id`, with more words where the bitmap is too short.
fn bitmap_add(words: &mut Vec<u64>, row_id: u32)
    requires
        old(words)@.len() <= MAX_WORDS,
    ensures
        final(words)@.len() <= MAX_WORDS,
        bitmap_set(final(words)@) == bitmap_set(old(words)@).insert(row_id),
{
    let i = (row_id / 64) as usize;
    let k = (row_id % 64) as u64;
    let ghost before = words@;
    while words.len() <= i
        invariant
            i == row_id / 64,
            words@.len() <= MAX_WORDS,
            words@.len() >= before.len(),
            forall|m: int| 0 <= m < before.len() ==> words@[m] == before[m],
            forall|m: int| before.len() <= m < words@.len() ==> words@[m] == 0,
        decreases i + 1 - words@.len(),
    {
        words.push(0);
    }
    let ghost grown = words@;
    let w = words[i];
    words[i] = w | (1u64 << k);
    proof {
        let after = words@;
        assert forall|x: u32| bitmap_has(after, x) <==> (bitmap_has(before, x) || x == row_id) by {
            let m = (x / 64) as int;
            let j = (x % 64) as u64;
            if m < grown.len() {
                if m >= before.len() {
                    lemma_bit_zero(j);
                }
                if m == i {
                    lemma_bit_or(w, k, j);
                }
            }
        }
        assert(bitmap_set(after) =~= bitmap_set(before).insert(row_id));
    }
}

/// Whether the bit of `row_id` is set.
fn bitmap_contains(words: &Vec<u64>, row_id: u32) -> (b: bool)
    ensures
        b == bitmap_has(words@, row_id),
{
    let i = (row_id / 64) as usize;
    let k = (row_id % 64) as u64;
    i < words.len() && (words[i] >> k) & 1 == 1
}

/// The row ids of a bitmap in ascending order.
fn bitmap_to_vec(words: &Vec<u64>) -> (v: Vec<u32>)
    requires
        words@.len() <= MAX_WORDS,
    ensures
        ascending(v@),
        v@.to_set() == bitmap_set(words@),
{
    let mut v: Vec<u32> = Vec::new();
    let mut i: usize = 0;
    assert(v@.to_set() =~= Set::new(|r: u32| bitmap_has(words@, r) && r < 0));
    while i < words.len()
        invariant
            i <= words@.len(),
            words@.len() <= MAX_WORDS,
            ascending(v@),
            v@.len() > 0 ==> v@[v@.len() - 1] < 64 * i,
            v@.to_set() == Set::new(|r: u32| bitmap_has(words@, r) && r < 64 * i),
        decreases words@.len() - i,
    {
        let w = words[i];
        let mut k: u32 = 0;
        while k < 64
            invariant
                k <= 64,
                i < words@.len(),
                words@.len() <= MAX_WORDS,
                w == words@[i as int],
                ascending(v@),
                v@.len() > 0 ==> v@[v@.len() - 1] < 64 * i + k,
                v@.to_set() == Set::new(|r: u32| bitmap_has(words@, r) && r < 64 * i + k),
            decreases 64 - k,
        {
            let ghost prev = v@;
            let r: u32 = (64 * i) as u32 + k;
            assert(r / 64 == i && r % 64 == k);
            if (w >> (k as u64)) & 1 == 1 {
                v.push(r);
                proof {
                    lemma_push_to_set(prev, r);
                }
            }
            proof {
                assert forall|x: u32|
                    (bitmap_has(words@, x) && x < 64 * i + k + 1) <==> ((bitmap_has(words@, x) && x
                        < 64 * i + k) || (x == r && bitmap_has(words@, r))) by {}
                assert(v@.to_set() =~= Set::new(
                    |x: u32| bitmap_has(words@, x) && x < 64 * i + k + 1,
                ));
            }
            k = k + 1;
        }
        i = i + 1;
    }
    proof {
        assert forall|x: u32| bitmap_has(words@, x) implies x < 64 * i by {}
        assert(v@.to_set() =~= bitmap_set(words@));
    }
    v
}

impl RowIDs {
    /// The representation invariant: a list is ascending, and a bitmap is
    /// no longer than the row ids reach.
    pub closed spec fn wf(&self) -> bool {
        match self.repr {
            Repr::Bitmap(words) => words@.len() <= MAX_WORDS,
            Repr::Vector(ids) => ascending(ids@),
        }
    }

    /// Whether the set is kept as a bitmap.
    pub closed spec fn is_bitmap(&self) -> bool {
        self.repr is Bitmap
    }

    /// An empty set, kept as a list.
    pub fn new() -> (s: RowIDs)
        ensures
            s.wf(),
            !s.is_bitmap(),
            s@ == Set::<u32>::empty(),
    {
        RowIDs::new_vector()
    }

    /// An empty set, kept as a list.
    pub fn new_vector() -> (s: RowIDs)
        ensures
            s.wf(),
            !s.is_bitmap(),
            s@ == Set::<u32>::empty(),
    {
        let s = RowIDs { repr: Repr::Vector(Vec::new()) };
        assert(s@ =~= Set::<u32>::empty());
        s
    }

    /// An empty set, kept as a bitmap.
    pub fn new_bitmap() -> (s: RowIDs)
        ensures
            s.wf(),
            s.is_bitmap(),
            s@ == Set::<u32>::empty(),
    {
        let s = RowIDs { repr: Repr::Bitmap(Vec::new()) };
        assert(s@ =~= Set::<u32>::empty());
        s
    }

    /// An empty set with room for the row ids below `n`: a bitmap of `n` bits.
    pub fn with_capacity(n: u32) -> (s: RowIDs)
        ensures
            s.wf(),
            s.is_bitmap(),
            s@ == Set::<u32>::empty(),
            s.room() == 64 * ((n + 63) / 64),
    {
        let rest: usize = if n % 64 == 0 {
            0
        } else {
            1
        };
        let count: usize = (n / 64) as usize + rest;
        let mut words: Vec<u64> = Vec::with_capacity(count);
        let mut i: usize = 0;
        while i < count
            invariant
                i <= count,
                count <= MAX_WORDS,
                words@.len() == i,
                forall|m: int| 0 <= m < i ==> words@[m] == 0,
            decreases count - i,
        {
            words.push(0);
            i = i + 1;
        }
        let s = RowIDs { repr: Repr::Bitmap(words) };
        proof {
            assert forall|x: u32| !bitmap_has(words@, x) by {
                lemma_bit_zero((x % 64) as u64);
            }
            assert(s@ =~= Set::<u32>::empty());
        }
        s
    }

    /// The number of row ids, counted from 0, that the set has a place for
    /// as it stands: 64 for each word of a bitmap. A list has none set
    /// aside; it grows with every row id.
    pub closed spec fn room(&self) -> nat {
        match self.repr {
            Repr::Bitmap(words) => 64 * words@.len(),
            Repr::Vector(_) => 0,
        }
    }

    /// Whether the set is kept as a bitmap.
    pub fn has_bitmap(&self) -> (b: bool)
        ensures
            b == self.is_bitmap(),
    {
        match &self.repr {
            Repr::Bitmap(_) => true,
            Repr::Vector(_) => false,
        }
    }

    /// The row ids in ascending order.
    pub fn to_vec(&self) -> (v: Vec<u32>)
        requires
            self.wf(),
        ensures
            ascending(v@),
            v@.to_set() == self@,
    {
        match &self.repr {
            Repr::Bitmap(words) => bitmap_to_vec(words),
            Repr::Vector(ids) => {
                let mut v: Vec<u32> = Vec::with_capacity(ids.len());
                let mut i: usize = 0;
                while i < ids.len()
                    invariant
                        i <= ids@.len(),
                        v@ == ids@.subrange(0, i as int),
                    decreases ids@.len() - i,
                {
                    v.push(ids[i]);
                    assert(v@ =~= ids@.subrange(0, i + 1));
                    i = i + 1;
                }
                assert(v@ =~= ids@);
                v
            },
        }
    }

    /// The row ids in ascending order; the set is given up for them.
    pub fn into_sorted_vec(self) -> (v: Vec<u32>)
        requires
            self.wf(),
        ensures
            ascending(v@),
            v@.to_set() == self@,
    {
        match self.repr {
            Repr::Bitmap(words) => bitmap_to_vec(&words),
            Repr::Vector(ids) => ids,
        }
    }

    /// The number of row ids in the set.
    pub fn len(&self) -> (n: usize)
        requires
            self.wf(),
        ensures
            n == self@.len(),
    {
        match &self.repr {
            Repr::Bitmap(words) => {
                let v = bitmap_to_vec(words);
                proof {
                    lemma_ascending_len(v@);
                }
                v.len()
            },
            Repr::Vector(ids) => {
                proof {
                    lemma_ascending_len(ids@);
                }
                ids.len()
            },
        }
    }

    /// Whether the set holds no row id.
    pub fn is_empty(&self) -> (b: bool)
        requires
            self.wf(),
        ensures
            b == (self@ == Set::<u32>::empty()),
    {
        match &self.repr {
            Repr::Bitmap(words) => {
                let v = bitmap_to_vec(words);
                proof {
                    if v@.len() == 0 {
                        assert(v@.to_set() =~= Set::<u32>::empty());
                    } else {
                        assert(v@.to_set().contains(v@[0]));
                    }
                }
                v.len() == 0
            },
            Repr::Vector(ids) => {
                proof {
                    if ids@.len() == 0 {
                        assert(ids@.to_set() =~= Set::<u32>::empty());
                    } else {
                        assert(ids@.to_set().contains(ids@[0]));
                    }
                }
                ids.len() == 0
            },
        }
    }

    /// Whether `row_id` is in the set.
    pub fn contains(&self, row_id: u32) -> (b: bool)
        requires
            self.wf(),
        ensures
            b == self@.contains(row_id),
    {
        match &self.repr {
            Repr::Bitmap(words) => bitmap_contains(words, row_id),
            Repr::Vector(ids) => {
                let p = position(ids, row_id);
                p < ids.len() && ids[p] == row_id
            },
        }
    }

    /// Adds `row_id` to the set.
    pub fn add(&mut self, row_id: u32)
        requires
            old(self).wf(),
        ensures
            final(self).wf(),
            final(self).is_bitmap() == old(self).is_bitmap(),
            final(self)@ == old(self)@.insert(row_id),
    {
        match &mut self.repr {
            Repr::Bitmap(words) => bitmap_add(words, row_id),
            Repr::Vector(ids) => vector_add(ids, row_id),
        }
    }

    /// Adds every row id from `lo` up to, but not including, `hi`.
    pub fn add_range(&mut self, lo: u32, hi: u32)
        requires
            old(self).wf(),
        ensures
            final(self).wf(),
            final(self).is_bitmap() == old(self).is_bitmap(),
            final(self)@ == old(self)@.union(Set::new(|r: u32| lo <= r < hi)),
    {
        let mut r: u32 = lo;
        assert(self@ =~= old(self)@.union(Set::new(|x: u32| lo <= x < lo)));
        while r < hi
            invariant
                self.wf(),
                self.is_bitmap() == old(self).is_bitmap(),
                lo <= r,
                lo < hi ==> r <= hi,
                lo >= hi ==> r == lo,
                self@ == old(self)@.union(Set::new(|x: u32| lo <= x < r)),
            decreases hi - r,
        {
            self.add(r);
            assert(self@ =~= old(self)@.union(Set::new(|x: u32| lo <= x < r + 1)));
            r = r + 1;
        }
        assert(self@ =~= old(self)@.union(Set::new(|x: u32| lo <= x < hi)));
    }

    /// A copy of the set, in the same representation.
    pub fn duplicate(&self) -> (s: RowIDs)
        requires
            self.wf(),
        ensures
            s.wf(),
            s.is_bitmap() == self.is_bitmap(),
            s@ == self@,
    {
        match &self.repr {
            Repr::Bitmap(words) => {
                let mut copy: Vec<u64> = Vec::with_capacity(words.len());
                let mut i: usize = 0;
                while i < words.len()
                    invariant
                        i <= words@.len(),
                        copy@ == words@.subrange(0, i as int),
                    decreases words@.len() - i,
                {
                    copy.push(words[i]);
                    assert(copy@ =~= words@.subrange(0, i + 1));
                    i = i + 1;
                }
                assert(copy@ =~= words@);
                RowIDs { repr: Repr::Bitmap(copy) }
            },
            Repr::Vector(ids) => {
                let v = self.to_vec();
                RowIDs { repr: Repr::Vector(v) }
            },
        }
    }

    /// Removes every row id; the representation stays.
    pub fn clear(&mut self)
        ensures
            final(self).wf(),
            final(self).is_bitmap() == old(self).is_bitmap(),
            final(self)@ == Set::<u32>::empty(),
    {
        match &mut self.repr {
            Repr::Bitmap(words) => {
                words.clear();
            },
            Repr::Vector(ids) => {
                ids.clear();
            },
        }
        assert(self@ =~= Set::<u32>::empty());
    }

    /// Adds every row id of `other` to the set. The sets may be kept in
    /// different ways; this one keeps its own.
    pub fn union_in_place(&mut self, other: &RowIDs)
        requires
            old(self).wf(),
            other.wf(),
        ensures
            final(self).wf(),
            final(self).is_bitmap() == old(self).is_bitmap(),
            final(self)@ == old(self)@.union(other@),
    {
        let v = other.to_vec();
        match &mut self.repr {
            Repr::Vector(ids) => {
                let n = ids.len();
                if v.len() == 0 {
                    assert(v@.to_set() =~= Set::<u32>::empty());
                    assert(ids@.to_set().union(v@.to_set()) =~= ids@.to_set());
                } else if n == 0 || ids[n - 1] < v[0] {
                    append(ids, &v);
                } else {
                    let merged = merge(ids, &v);
                    *ids = merged;
                }
            },
            Repr::Bitmap(words) => {
                let ghost before = bitmap_set(words@);
                let mut j: usize = 0;
                assert(bitmap_set(words@) =~= before.union(v@.subrange(0, 0).to_set()));
                while j < v.len()
                    invariant
                        j <= v@.len(),
                        words@.len() <= MAX_WORDS,
                        bitmap_set(words@) == before.union(v@.subrange(0, j as int).to_set()),
                    decreases v@.len() - j,
                {
                    bitmap_add(words, v[j]);
                    proof {
                        lemma_prefix_to_set(v@, j as int);
                        assert(bitmap_set(words@) =~= before.union(
                            v@.subrange(0, j + 1).to_set(),
                        ));
                    }
                    j = j + 1;
                }
                assert(v@.subrange(0, j as int) =~= v@);
            },
        }
    }

    /// Keeps only the row ids that are also in `other`. The sets may be
    /// kept in different ways; this one keeps its own.
    pub fn intersect_in_place(&mut self, other: &RowIDs)
        requires
            old(self).wf(),
            other.wf(),
        ensures
            final(self).wf(),
            final(self).is_bitmap() == old(self).is_bitmap(),
            final(self)@ == old(self)@.intersect(other@),
    {
        let v = self.to_vec();
        self.clear();
        let mut i: usize = 0;
        assert(self@ =~= v@.subrange(0, 0).to_set().intersect(other@));
        while i < v.len()
            invariant
                i <= v@.len(),
                self.wf(),
                other.wf(),
                self.is_bitmap() == old(self).is_bitmap(),
                self@ == v@.subrange(0, i as int).to_set().intersect(other@),
            decreases v@.len() - i,
        {
            let x = v[i];
            proof {
                lemma_prefix_to_set(v@, i as int);
            }
            if other.contains(x) {
                self.add(x);
            }
            assert(self@ =~= v@.subrange(0, i + 1).to_set().intersect(other@));
            i = i + 1;
        }
        assert(v@.subrange(0, i as int) =~= v@);
    }
}

/// Appends to the ascending list `ids` the ascending list `tail`, all of it
/// beyond the last of `ids`.
fn append(ids: &mut Vec<u32>, tail: &Vec<u32>)
    requires
        ascending(old(ids)@),
        ascending(tail@),
        tail@.len() > 0,
        old(ids)@.len() > 0 ==> old(ids)@[old(ids)@.len() - 1] < tail@[0],
    ensures
        ascending(final(ids)@),
        final(ids)@.to_set() == old(ids)@.to_set().union(tail@.to_set()),
{
    let ghost a = ids@;
    let ghost b = tail@;
    let mut j: usize = 0;
    assert(ids@.to_set() =~= a.to_set().union(b.subrange(0, 0).to_set()));
    while j < tail.len()
        invariant
            tail@ == b,
            j <= b.len(),
            ids@ == a + b.subrange(0, j as int),
            ids@.to_set() == a.to_set().union(b.subrange(0, j as int).to_set()),
        decreases b.len() - j,
    {
        let ghost prev = ids@;
        let x = tail[j];
        ids.push(x);
        proof {
            lemma_push_to_set(prev, x);
            lemma_prefix_to_set(b, j as int);
            assert(ids@ =~= a + b.subrange(0, j + 1));
            assert(ids@.to_set() =~= a.to_set().union(b.subrange(0, j + 1).to_set()));
        }
        j = j + 1;
    }
    proof {
        assert(b.subrange(0, j as int) =~= b);
        let all = ids@;
        assert forall|p: int, q: int| 0 <= p < q < all.len() implies all[p] < all[q] by {
            if q < a.len() {
            } else if p >= a.len() {
                assert(b[p - a.len()] < b[q - a.len()]);
            } else {
                assert(a[p] <= a[a.len() - 1]);
                assert(b[0] <= b[q - a.len()]);
            }
        }
    }
}

/// The ascending list of what is in either of two ascending lists.
fn merge(left: &Vec<u32>, right: &Vec<u32>) -> (out: Vec<u32>)
    requires
        ascending(left@),
        ascending(right@),
    ensures
        ascending(out@),
        out@.to_set() == left@.to_set().union(right@.to_set()),
{
    let ghost a = left@;
    let ghost b = right@;
    let mut out: Vec<u32> = Vec::with_capacity(left.len());
    let mut i: usize = 0;
    let mut j: usize = 0;
    assert(out@.to_set() =~= a.subrange(0, 0).to_set().union(b.subrange(0, 0).to_set()));
    while i < left.len() || j < right.len()
        invariant
            left@ == a,
            right@ == b,
            ascending(a),
            ascending(b),
            ascending(out@),
            i <= a.len(),
            j <= b.len(),
            out@.len() > 0 && i < a.len() ==> out@[out@.len() - 1] < a[i as int],
            out@.len() > 0 && j < b.len() ==> out@[out@.len() - 1] < b[j as int],
            out@.to_set() == a.subrange(0, i as int).to_set().union(
                b.subrange(0, j as int).to_set(),
            ),
        decreases a.len() - i + b.len() - j,
    {
        let ghost prev = out@;
        let take_left = j >= right.len() || (i < left.len() && left[i] <= right[j]);
        if take_left {
            let x = left[i];
            let both = j < right.len() && right[j] == x;
            out.push(x);
            proof {
                lemma_push_to_set(prev, x);
                lemma_prefix_to_set(a, i as int);
                if both {
                    lemma_prefix_to_set(b, j as int);
                }
            }
            i = i + 1;
            if both {
                j = j + 1;
            }
        } else {
            let x = right[j];
            out.push(x);
            proof {
                lemma_push_to_set(prev, x);
                lemma_prefix_to_set(b, j as int);
            }
            j = j + 1;
        }
        assert(out@.to_set() =~= a.subrange(0, i as int).to_set().union(
            b.subrange(0, j as int).to_set(),
        ));
    }
    assert(a.subrange(0, i as int) =~= a);
    assert(b.subrange(0, j as int) =~= b);
    out
}

} // verus!
