//! Bounds on the values a replicated structure can hold.
//!
//! A mutation is applied to local state and, at the same time, recorded on
//! the tape; the value therefore exists twice, and the copy on the tape must
//! denote the same mathematical value as the one kept in state.  `Value`
//! demands exactly that.  Map keys additionally need decidable equality of
//! their denotations, and map values a default standing for a key never
//! written.

use vstd::prelude::*;

verus! {

/// A value a replicated structure can hold: duplicable without changing its
/// mathematical view.
pub trait Value: View + Sized {
    /// Produces a copy denoting the same value.
    fn dup(&self) -> (r: Self)
        ensures
            r@ == self@,
    ;
}

/// A key of the replicated map: its denotation has decidable equality.
pub trait MapKey: Value {
    /// Decides whether two keys denote the same value.
    fn key_eq(&self, other: &Self) -> (r: bool)
        ensures
            r == (self@ == other@),
    ;
}

/// A value of the replicated map: additionally has a default, read as the
/// current value of a key never written.
pub trait MapVal: Value {
    /// The denotation of the default value.
    spec fn default_view() -> Self::V;

    /// The default value itself.
    fn val_default() -> (r: Self)
        ensures
            r@ == Self::default_view(),
    ;
}

impl Value for u8 {
    fn dup(&self) -> (r: Self) {
        *self
    }
}

impl Value for u16 {
    fn dup(&self) -> (r: Self) {
        *self
    }
}

impl Value for u32 {
    fn dup(&self) -> (r: Self) {
        *self
    }
}

impl Value for u64 {
    fn dup(&self) -> (r: Self) {
        *self
    }
}

impl Value for usize {
    fn dup(&self) -> (r: Self) {
        *self
    }
}

impl Value for i32 {
    fn dup(&self) -> (r: Self) {
        *self
    }
}

impl Value for i64 {
    fn dup(&self) -> (r: Self) {
        *self
    }
}

impl Value for bool {
    fn dup(&self) -> (r: Self) {
        *self
    }
}

impl Value for String {
    fn dup(&self) -> (r: Self) {
        self.clone()
    }
}

impl MapKey for u8 {
    fn key_eq(&self, other: &Self) -> (r: bool) {
        *self == *other
    }
}

impl MapKey for u16 {
    fn key_eq(&self, other: &Self) -> (r: bool) {
        *self == *other
    }
}

impl MapKey for u32 {
    fn key_eq(&self, other: &Self) -> (r: bool) {
        *self == *other
    }
}

impl MapKey for u64 {
    fn key_eq(&self, other: &Self) -> (r: bool) {
        *self == *other
    }
}

impl MapKey for usize {
    fn key_eq(&self, other: &Self) -> (r: bool) {
        *self == *other
    }
}

impl MapKey for i32 {
    fn key_eq(&self, other: &Self) -> (r: bool) {
        *self == *other
    }
}

impl MapKey for i64 {
    fn key_eq(&self, other: &Self) -> (r: bool) {
        *self == *other
    }
}

impl MapKey for String {
    fn key_eq(&self, other: &Self) -> (r: bool) {
        self.eq(other)
    }
}

impl MapVal for u8 {
    open spec fn default_view() -> u8 {
        0
    }

    fn val_default() -> (r: Self) {
        0
    }
}

impl MapVal for u16 {
    open spec fn default_view() -> u16 {
        0
    }

    fn val_default() -> (r: Self) {
        0
    }
}

impl MapVal for u32 {
    open spec fn default_view() -> u32 {
        0
    }

    fn val_default() -> (r: Self) {
        0
    }
}

impl MapVal for u64 {
    open spec fn default_view() -> u64 {
        0
    }

    fn val_default() -> (r: Self) {
        0
    }
}

impl MapVal for usize {
    open spec fn default_view() -> usize {
        0
    }

    fn val_default() -> (r: Self) {
        0
    }
}

impl MapVal for i32 {
    open spec fn default_view() -> i32 {
        0
    }

    fn val_default() -> (r: Self) {
        0
    }
}

impl MapVal for i64 {
    open spec fn default_view() -> i64 {
        0
    }

    fn val_default() -> (r: Self) {
        0
    }
}

impl MapVal for bool {
    open spec fn default_view() -> bool {
        false
    }

    fn val_default() -> (r: Self) {
        false
    }
}

impl MapVal for String {
    open spec fn default_view() -> Seq<char> {
        Seq::empty()
    }

    fn val_default() -> (r: Self) {
        String::new()
    }
}

} // verus!
