//! Logical values handed out by a column.

use vstd::prelude::*;

verus! {

/// The view of an optional string: `None` stands for NULL.
pub open spec fn opt_view(o: Option<&str>) -> Option<Seq<char>> {
    match o {
        Some(s) => Some(s@),
        None => None,
    }
}

/// The view of an optional owned string.
pub open spec fn opt_string_view(o: Option<String>) -> Option<Seq<char>> {
    match o {
        Some(s) => Some(s@),
        None => None,
    }
}

/// The views of a list of optional strings.
pub open spec fn opt_views(v: Seq<Option<&str>>) -> Seq<Option<Seq<char>>> {
    Seq::new(v.len(), |i: int| opt_view(v[i]))
}

/// One logical value of a column.
#[derive(Clone, Copy, Debug)]
pub enum Value<'a> {
    Null,
    String(&'a str),
}

impl<'a> View for Value<'a> {
    type V = Option<Seq<char>>;

    open spec fn view(&self) -> Option<Seq<char>> {
        match self {
            Value::Null => None,
            Value::String(s) => Some(s@),
        }
    }
}

impl<'a> Value<'a> {
    /// Wraps an optional string.
    pub fn from_option(o: Option<&'a str>) -> (v: Value<'a>)
        ensures
            v@ == opt_view(o),
    {
        match o {
            Some(s) => Value::String(s),
            None => Value::Null,
        }
    }

    /// Whether this is the NULL value.
    pub fn is_null(&self) -> (b: bool)
        ensures
            b == (self@ is None),
    {
        match self {
            Value::Null => true,
            Value::String(_) => false,
        }
    }

    /// The string, unless this is NULL.
    pub fn string(&self) -> (o: Option<&'a str>)
        ensures
            opt_view(o) == self@,
    {
        match self {
            Value::Null => None,
            Value::String(s) => Some(*s),
        }
    }
}

/// A batch of logical values in the order in which they were asked for.
#[derive(Debug)]
pub enum Values<'a> {
    String(Vec<Option<&'a str>>),
}

impl<'a> View for Values<'a> {
    type V = Seq<Option<Seq<char>>>;

    open spec fn view(&self) -> Seq<Option<Seq<char>>> {
        match self {
            Values::String(v) => opt_views(v@),
        }
    }
}

impl<'a> Values<'a> {
    /// The number of values in the batch.
    pub fn len(&self) -> (n: usize)
        ensures
            n == self@.len(),
    {
        match self {
            Values::String(v) => v.len(),
        }
    }

    /// Whether the batch holds no value.
    pub fn is_empty(&self) -> (b: bool)
        ensures
            b == (self@.len() == 0),
    {
        match self {
            Values::String(v) => v.len() == 0,
        }
    }

    /// The value at position `i` of the batch.
    pub fn value(&self, i: usize) -> (v: Value<'a>)
        requires
            i < self@.len(),
        ensures
            v@ == self@[i as int],
    {
        match self {
            Values::String(v) => Value::from_option(v[i]),
        }
    }
}

} // verus!
