//! The meaning of each list operation on the sequence of values a list holds.
//!
//! Both list types view themselves as a `Seq` of their values, first to
//! last, and state their contracts through the functions below.

use vstd::prelude::*;

verus! {

/// The values after `value` was added behind the last one.
pub open spec fn appended<T>(s: Seq<T>, value: T) -> Seq<T> {
    s.push(value)
}

/// The values after `value` was added before the first one.
pub open spec fn prepended<T>(s: Seq<T>, value: T) -> Seq<T> {
    seq![value] + s
}

/// The last value, if there is one.
pub open spec fn last_of<T>(s: Seq<T>) -> Option<T> {
    if s.len() == 0 {
        None
    } else {
        Some(s.last())
    }
}

/// The values without the last one; an empty sequence stays as it is.
pub open spec fn without_last<T>(s: Seq<T>) -> Seq<T> {
    if s.len() == 0 {
        s
    } else {
        s.drop_last()
    }
}

/// The first value, if there is one.
pub open spec fn first_of<T>(s: Seq<T>) -> Option<T> {
    if s.len() == 0 {
        None
    } else {
        Some(s.first())
    }
}

/// The values without the first one; an empty sequence stays as it is.
pub open spec fn without_first<T>(s: Seq<T>) -> Seq<T> {
    if s.len() == 0 {
        s
    } else {
        s.drop_first()
    }
}

/// The value at `index`; none where `index` is negative or past the end.
pub open spec fn element_at<T>(s: Seq<T>, index: int) -> Option<T> {
    if 0 <= index < s.len() {
        Some(s[index])
    } else {
        None
    }
}

/// The values after the one at `index` was replaced by `value`; unchanged
/// where `index` is negative or past the end.
pub open spec fn replaced<T>(s: Seq<T>, index: int, value: T) -> Seq<T> {
    if 0 <= index < s.len() {
        s.update(index, value)
    } else {
        s
    }
}

/// The values after `value` was put at position `index`, the values from
/// there on moving one place back; unchanged where `index` is negative or
/// greater than the length.
pub open spec fn inserted<T>(s: Seq<T>, index: int, value: T) -> Seq<T> {
    if 0 <= index <= s.len() {
        s.insert(index, value)
    } else {
        s
    }
}

/// The values after the one at `index` was taken out; unchanged where
/// `index` is negative or past the end.
pub open spec fn removed<T>(s: Seq<T>, index: int) -> Seq<T> {
    if 0 <= index < s.len() {
        s.remove(index)
    } else {
        s
    }
}

/// The values in the opposite order.
pub open spec fn reversed<T>(s: Seq<T>) -> Seq<T> {
    Seq::new(s.len(), |i: int| s[s.len() - 1 - i])
}

} // verus!
