//! Small types from which the labels of derived automata are made.

use vstd::prelude::*;

verus! {

/// The empty word.
#[derive(Debug, Hash, PartialEq, Eq, PartialOrd, Ord, Clone, Copy)]
pub struct Epsilon;

/// A value of one of two types.
#[derive(Debug, Hash, PartialEq, Eq, PartialOrd, Ord, Clone, Copy)]
pub enum Union<T, V> {
    /// A value of the first type.
    T(T),
    /// A value of the second type.
    V(V),
}

/// Two values side by side.
#[derive(Debug, Hash, PartialEq, Eq, PartialOrd, Ord, Clone, Copy)]
pub struct Couple<T, V>(pub T, pub V);

impl<T, V> Union<T, V> {
    /// The union that holds `value`, of the first type.
    pub fn left(value: T) -> (made: Self)
        ensures
            made == Union::<T, V>::T(value),
    {
        Union::T(value)
    }

    /// The union that holds `value`, of the second type.
    pub fn right(value: V) -> (made: Self)
        ensures
            made == Union::<T, V>::V(value),
    {
        Union::V(value)
    }

    /// Whether the value is of the first type.
    pub fn is_left(&self) -> (yes: bool)
        ensures
            yes == (*self matches Union::T(_)),
    {
        match self {
            Union::T(_) => true,
            Union::V(_) => false,
        }
    }

    /// Whether the value is of the second type.
    pub fn is_right(&self) -> (yes: bool)
        ensures
            yes == (*self matches Union::V(_)),
    {
        match self {
            Union::T(_) => false,
            Union::V(_) => true,
        }
    }

    /// The value, if it is of the first type.
    pub fn get_left(&self) -> (got: Option<&T>)
        ensures
            got == (match *self {
                Union::T(t) => Some(&t),
                Union::V(_) => None,
            }),
    {
        match self {
            Union::T(t) => Some(t),
            Union::V(_) => None,
        }
    }

    /// The value, if it is of the second type.
    pub fn get_right(&self) -> (got: Option<&V>)
        ensures
            got == (match *self {
                Union::T(_) => None,
                Union::V(v) => Some(&v),
            }),
    {
        match self {
            Union::T(_) => None,
            Union::V(v) => Some(v),
        }
    }
}

} // verus!
