//! Radix-2 number-theoretic transform engine over the Goldilocks prime field.
//!
//! The engine maps a length-`n` buffer (`n` a power of two) between the
//! coefficient representation of a polynomial and its evaluations at a coset
//! of the `n`-th roots of unity, via a log2(n)-stage butterfly network.
//! The forward pass is decimation-in-time (natural input, bit-reversed
//! output); the inverse pass is decimation-in-frequency (bit-reversed input,
//! natural output, scaled by `n` until normalized).

use vstd::prelude::*;

pub mod bits;
pub mod field;
pub mod evaluation;
pub mod layers;
pub mod plonky2;

verus! {

/// Uniform contract of a transform engine: construct for a fixed size `n`,
/// sample a random buffer, and run the forward, backward and normalizing
/// passes in place on a caller-owned buffer of exactly `n` elements.
///
/// Each implementation supplies, as spec members, its notion of a
/// well-formed engine, of an admissible element, and the relations its three
/// mutating passes establish between the old and the new buffer contents.
pub trait Ntt: Sized {
    type Elem;

    /// The sizes an engine can be built for.
    spec fn buildable(n: usize) -> bool;

    /// Well-formedness of a constructed engine.
    spec fn valid(&self) -> bool;

    /// The transform size `n` fixed at construction.
    spec fn size(&self) -> nat;

    /// An element the engine's passes accept and produce.
    spec fn elem_ok(e: Self::Elem) -> bool;

    /// How the forward pass relates the new buffer to the old one.
    spec fn forward_post(&self, pre: Seq<Self::Elem>, post: Seq<Self::Elem>) -> bool;

    /// How the backward pass relates the new buffer to the old one.
    spec fn backward_post(&self, pre: Seq<Self::Elem>, post: Seq<Self::Elem>) -> bool;

    /// How the normalizing pass relates the new buffer to the old one.
    spec fn normalize_post(&self, pre: Seq<Self::Elem>, post: Seq<Self::Elem>) -> bool;

    /// Build an engine for transform size `n`, precomputing its twiddle
    /// tables.
    fn new(n: usize) -> (r: Self)
        requires
            Self::buildable(n),
        ensures
            r.valid(),
            r.size() == n as nat,
    ;

    /// Sample `n` field elements for test and benchmark data.
    fn rand(&self) -> (r: Vec<Self::Elem>)
        requires
            self.valid(),
        ensures
            r@.len() == self.size(),
            forall|i: int| 0 <= i < r@.len() ==> Self::elem_ok(#[trigger] r@[i]),
    ;

    /// Forward transform, in place: natural-order coefficients in,
    /// bit-reversed-order evaluations out.
    fn forward(&self, a: &mut Vec<Self::Elem>)
        requires
            self.valid(),
            old(a)@.len() == self.size(),
            forall|i: int| 0 <= i < old(a)@.len() ==> Self::elem_ok(#[trigger] old(a)@[i]),
        ensures
            final(a)@.len() == self.size(),
            forall|i: int| 0 <= i < final(a)@.len() ==> Self::elem_ok(#[trigger] final(a)@[i]),
            self.forward_post(old(a)@, final(a)@),
    ;

    /// Inverse transform, in place: bit-reversed-order evaluations in,
    /// natural-order coefficients out, each scaled by `n`.
    fn backward(&self, a: &mut Vec<Self::Elem>)
        requires
            self.valid(),
            old(a)@.len() == self.size(),
            forall|i: int| 0 <= i < old(a)@.len() ==> Self::elem_ok(#[trigger] old(a)@[i]),
        ensures
            final(a)@.len() == self.size(),
            forall|i: int| 0 <= i < final(a)@.len() ==> Self::elem_ok(#[trigger] final(a)@[i]),
            self.backward_post(old(a)@, final(a)@),
    ;

    /// Scale every element by the inverse of `n`, recovering true
    /// coefficients after a backward pass.
    fn normalize(&self, a: &mut Vec<Self::Elem>)
        requires
            self.valid(),
            old(a)@.len() == self.size(),
            forall|i: int| 0 <= i < old(a)@.len() ==> Self::elem_ok(#[trigger] old(a)@[i]),
        ensures
            final(a)@.len() == self.size(),
            forall|i: int| 0 <= i < final(a)@.len() ==> Self::elem_ok(#[trigger] final(a)@[i]),
            self.normalize_post(old(a)@, final(a)@),
    ;
}

} // verus!
