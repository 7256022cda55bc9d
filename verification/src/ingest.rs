//! Building a column from a list of optional strings.

use vstd::prelude::*;
use crate::column::{StringEncoding, TEMP_CARDINALITY_DICTIONARY_ENCODING_LIMIT};
use crate::dictionary::{encoded_id_of, StringSet};
use crate::lex::{compare, Rel};
use crate::model::repeat;
use crate::plain::Plain;
use crate::rle::RLE;
use crate::value::{opt_string_view, opt_view, opt_views};

verus! {

/// The non-null values of a column.
pub open spec fn non_null_values(col: Seq<Option<Seq<char>>>) -> Set<Seq<char>> {
    Set::new(|s: Seq<char>| col.contains(Some(s)))
}

/// Whether two optional strings are the same value: NULL equals NULL.
pub fn same_value(a: Option<&str>, b: Option<&str>) -> (r: bool)
    ensures
        r == (opt_view(a) == opt_view(b)),
{
    match (a, b) {
        (None, None) => true,
        (Some(x), Some(y)) => compare(x, y) == Rel::Same,
        _ => false,
    }
}

/// An owned copy of an optional string.
pub fn to_owned_value(v: Option<&str>) -> (o: Option<String>)
    ensures
        opt_string_view(o) == opt_view(v),
{
    match v {
        Some(s) => Some(s.to_owned()),
        None => None,
    }
}

/// The sorted dictionary of the non-null strings of `arr`.
pub fn collect_dictionary(arr: &[Option<&str>]) -> (d: StringSet)
    requires
        arr@.len() <= u32::MAX,
    ensures
        d.wf(),
        d@.to_set() == non_null_values(opt_views(arr@)),
        d@.len() <= arr@.len(),
{
    let mut d = StringSet::new();
    let ghost col = opt_views(arr@);
    let mut i: usize = 0;
    assert(d@.to_set() =~= non_null_values(col.subrange(0, 0)));
    while i < arr.len()
        invariant
            i <= arr@.len(),
            arr@.len() <= u32::MAX,
            col == opt_views(arr@),
            d.wf(),
            d@.len() <= i,
            d@.to_set() == non_null_values(col.subrange(0, i as int)),
        decreases arr@.len() - i,
    {
        let ghost before = d@.to_set();
        match arr[i] {
            Some(s) => {
                d.insert(s);
            },
            None => {},
        }
        proof {
            let a = col.subrange(0, i as int);
            let b = col.subrange(0, i + 1);
            assert(b =~= a.push(col[i as int]));
            assert forall|s: Seq<char>| non_null_values(b).contains(s) <==> (non_null_values(
                a,
            ).contains(s) || col[i as int] == Some(s)) by {
                if b.contains(Some(s)) {
                    let k = choose|k: int| 0 <= k < b.len() && b[k] == Some(s);
                    if k < a.len() {
                        assert(a[k] == Some(s));
                    }
                }
                if a.contains(Some(s)) {
                    let k = choose|k: int| 0 <= k < a.len() && a[k] == Some(s);
                    assert(b[k] == Some(s));
                }
                if col[i as int] == Some(s) {
                    assert(b[i as int] == Some(s));
                }
            }
            assert(d@.to_set() =~= non_null_values(b));
        }
        i = i + 1;
    }
    assert(col.subrange(0, i as int) =~= col);
    d
}

impl StringEncoding {
    /// An empty column over `dictionary`: plain where the dictionary has
    /// more than `limit` entries, run-length encoded otherwise.
    pub fn with_dictionary(dictionary: StringSet, limit: usize) -> (c: StringEncoding)
        requires
            dictionary.wf(),
        ensures
            c.wf(),
            c.dictionary() == dictionary@,
            c@ == Seq::<Option<Seq<char>>>::empty(),
            c is Dictionary <==> dictionary@.len() > limit,
    {
        if dictionary.len() > limit {
            StringEncoding::Dictionary(Plain::with_dictionary(dictionary))
        } else {
            StringEncoding::RLEDictionary(RLE::with_dictionary(dictionary))
        }
    }

    /// Appends `count` rows that hold `value`.
    pub fn push_additional(&mut self, value: Option<String>, count: u32)
        requires
            old(self).wf(),
            old(self)@.len() + count <= u32::MAX,
            value is Some ==> old(self).dictionary().contains(value->0@),
        ensures
            final(self).wf(),
            final(self).dictionary() == old(self).dictionary(),
            *final(self) is Dictionary <==> *old(self) is Dictionary,
            final(self).ids() == old(self).ids() + repeat(
                encoded_id_of(old(self).dictionary(), opt_string_view(value)) as u32,
                count as nat,
            ),
            final(self)@ == old(self)@ + repeat(opt_string_view(value), count as nat),
    {
        match self {
            StringEncoding::RLEDictionary(c) => c.push_additional(value, count),
            StringEncoding::Dictionary(c) => c.push_additional(value, count),
        }
    }

    /// The column of the values of `arr`, in their order. The dictionary is
    /// collected in a first walk; it decides the encoding, plain where it
    /// has more than `limit` entries; a second walk appends the values run
    /// by run.
    pub fn encode(arr: &[Option<&str>], limit: usize) -> (c: StringEncoding)
        requires
            arr@.len() <= u32::MAX,
        ensures
            c.wf(),
            c@ == opt_views(arr@),
            c.dictionary().to_set() == non_null_values(c@),
            c is Dictionary <==> c.dictionary().len() > limit,
    {
        let dictionary = collect_dictionary(arr);
        let ghost d = dictionary@;
        let ghost col = opt_views(arr@);
        let mut c = StringEncoding::with_dictionary(dictionary, limit);
        if arr.len() == 0 {
            assert(col =~= Seq::<Option<Seq<char>>>::empty());
            return c;
        }
        let mut prev: Option<&str> = arr[0];
        let mut count: u32 = 1;
        let mut i: usize = 1;
        proof {
            assert(c@ + repeat(opt_view(prev), 1) =~= col.subrange(0, 1));
        }
        while i < arr.len()
            invariant
                1 <= i <= arr@.len(),
                arr@.len() <= u32::MAX,
                col == opt_views(arr@),
                c.wf(),
                c.dictionary() == d,
                d.to_set() == non_null_values(col),
                c is Dictionary <==> d.len() > limit,
                count >= 1,
                c@.len() + count == i,
                opt_view(prev) == col[i - 1],
                c@ + repeat(opt_view(prev), count as nat) == col.subrange(0, i as int),
            decreases arr@.len() - i,
        {
            let next = arr[i];
            if same_value(prev, next) {
                proof {
                    assert(c@ + repeat(opt_view(prev), (count + 1) as nat) =~= col.subrange(
                        0,
                        i + 1,
                    ));
                }
                count = count + 1;
            } else {
                proof {
                    if prev is Some {
                        assert(col.contains(Some(prev->0@)));
                        assert(d.to_set().contains(prev->0@));
                    }
                }
                c.push_additional(to_owned_value(prev), count);
                prev = next;
                count = 1;
                proof {
                    assert(c@ + repeat(opt_view(prev), 1) =~= col.subrange(0, i + 1));
                }
            }
            i = i + 1;
        }
        proof {
            if prev is Some {
                assert(col.contains(Some(prev->0@)));
                assert(d.to_set().contains(prev->0@));
            }
            assert(col.subrange(0, i as int) =~= col);
        }
        c.push_additional(to_owned_value(prev), count);
        c
    }

    /// The column of the optional strings of `arr`, in the encoding that
    /// the number of its distinct values calls for.
    pub fn from_opt_strs(arr: &[Option<&str>]) -> (c: StringEncoding)
        requires
            arr@.len() <= u32::MAX,
        ensures
            c.wf(),
            c@ == opt_views(arr@),
            c.dictionary().to_set() == non_null_values(c@),
            c is Dictionary <==> c.dictionary().len() > TEMP_CARDINALITY_DICTIONARY_ENCODING_LIMIT,
    {
        StringEncoding::encode(arr, TEMP_CARDINALITY_DICTIONARY_ENCODING_LIMIT)
    }

    /// The column of the strings of `arr`, none of them NULL.
    pub fn from_strs(arr: &[&str]) -> (c: StringEncoding)
        requires
            arr@.len() <= u32::MAX,
        ensures
            c.wf(),
            c@ == Seq::new(arr@.len(), |i: int| Some(arr@[i]@)),
            c.dictionary().to_set() == non_null_values(c@),
            c is Dictionary <==> c.dictionary().len() > TEMP_CARDINALITY_DICTIONARY_ENCODING_LIMIT,
    {
        let mut v: Vec<Option<&str>> = Vec::with_capacity(arr.len());
        let mut i: usize = 0;
        while i < arr.len()
            invariant
                i <= arr@.len(),
                v@.len() == i,
                forall|k: int| 0 <= k < i ==> #[trigger] v@[k] == Some(arr@[k]),
            decreases arr@.len() - i,
        {
            v.push(Some(arr[i]));
            i = i + 1;
        }
        assert(opt_views(v@) =~= Seq::new(arr@.len(), |i: int| Some(arr@[i]@)));
        StringEncoding::encode(v.as_slice(), TEMP_CARDINALITY_DICTIONARY_ENCODING_LIMIT)
    }
}

} // verus!
