//! Total orders on priority values.
//!
//! The queue compares priorities only through the [`TotalOrder`] trait, so a
//! caller may pick any priority type for which a total order (and an exact
//! duplication, the counterpart of cloning) has been proved.

use vstd::prelude::*;

verus! {

/// A totally ordered, duplicable priority value.
///
/// `le_spec` is the mathematical order; `lemma_total` and `lemma_transitive`
/// oblige every implementation to prove that it really is a total preorder,
/// and `le` is the executable comparison, proved to agree with `le_spec`.
/// `dup` produces an equal value, playing the role of cloning.
pub trait TotalOrder: Sized {
    /// The order itself: does `self` sort at or before `other`?
    spec fn le_spec(&self, other: &Self) -> bool;

    /// Any two values are comparable.
    proof fn lemma_total(a: &Self, b: &Self)
        ensures
            a.le_spec(b) || b.le_spec(a),
    ;

    /// The order is transitive.
    proof fn lemma_transitive(a: &Self, b: &Self, c: &Self)
        requires
            a.le_spec(b),
            b.le_spec(c),
        ensures
            a.le_spec(c),
    ;

    /// Executable comparison, faithful to `le_spec`.
    fn le(&self, other: &Self) -> (r: bool)
        ensures
            r == self.le_spec(other),
    ;

    /// An exact copy of the value.
    fn dup(&self) -> (r: Self)
        ensures
            r == *self,
    ;
}

impl TotalOrder for i32 {
    open spec fn le_spec(&self, other: &Self) -> bool {
        *self <= *other
    }

    proof fn lemma_total(a: &Self, b: &Self) {
    }

    proof fn lemma_transitive(a: &Self, b: &Self, c: &Self) {
    }

    fn le(&self, other: &Self) -> (r: bool) {
        *self <= *other
    }

    fn dup(&self) -> (r: Self) {
        *self
    }
}

impl TotalOrder for i64 {
    open spec fn le_spec(&self, other: &Self) -> bool {
        *self <= *other
    }

    proof fn lemma_total(a: &Self, b: &Self) {
    }

    proof fn lemma_transitive(a: &Self, b: &Self, c: &Self) {
    }

    fn le(&self, other: &Self) -> (r: bool) {
        *self <= *other
    }

    fn dup(&self) -> (r: Self) {
        *self
    }
}

impl TotalOrder for u32 {
    open spec fn le_spec(&self, other: &Self) -> bool {
        *self <= *other
    }

    proof fn lemma_total(a: &Self, b: &Self) {
    }

    proof fn lemma_transitive(a: &Self, b: &Self, c: &Self) {
    }

    fn le(&self, other: &Self) -> (r: bool) {
        *self <= *other
    }

    fn dup(&self) -> (r: Self) {
        *self
    }
}

impl TotalOrder for u64 {
    open spec fn le_spec(&self, other: &Self) -> bool {
        *self <= *other
    }

    proof fn lemma_total(a: &Self, b: &Self) {
    }

    proof fn lemma_transitive(a: &Self, b: &Self, c: &Self) {
    }

    fn le(&self, other: &Self) -> (r: bool) {
        *self <= *other
    }

    fn dup(&self) -> (r: Self) {
        *self
    }
}

impl TotalOrder for usize {
    open spec fn le_spec(&self, other: &Self) -> bool {
        *self <= *other
    }

    proof fn lemma_total(a: &Self, b: &Self) {
    }

    proof fn lemma_transitive(a: &Self, b: &Self, c: &Self) {
    }

    fn le(&self, other: &Self) -> (r: bool) {
        *self <= *other
    }

    fn dup(&self) -> (r: Self) {
        *self
    }
}

/// Reverses an order, turning the minimum-first queue into a maximum-first
/// one: `Reversed(a)` sorts before `Reversed(b)` exactly when `b` sorts
/// before `a`.
#[derive(Debug, PartialEq, Eq)]
pub struct Reversed<P>(pub P);

impl<P: TotalOrder> TotalOrder for Reversed<P> {
    open spec fn le_spec(&self, other: &Self) -> bool {
        other.0.le_spec(&self.0)
    }

    proof fn lemma_total(a: &Self, b: &Self) {
        P::lemma_total(&b.0, &a.0);
    }

    proof fn lemma_transitive(a: &Self, b: &Self, c: &Self) {
        P::lemma_transitive(&c.0, &b.0, &a.0);
    }

    fn le(&self, other: &Self) -> (r: bool) {
        other.0.le(&self.0)
    }

    fn dup(&self) -> (r: Self) {
        Reversed(self.0.dup())
    }
}

} // verus!
