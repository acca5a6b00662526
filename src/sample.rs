//! Unsigned integer sample types that a plane can be read into or written from.
use vstd::prelude::*;
use crate::bytes::{pow256, lemma_pow256_values};

verus! {

/// An unsigned integer type of one to eight bytes. A float sample is
/// carried as the unsigned integer with the same bits.
pub trait Sample: Sized + Copy {
    /// The number of bytes of one sample.
    spec fn size() -> nat;

    /// The sample as a number.
    spec fn value(&self) -> nat;

    proof fn lemma_size()
        ensures
            1 <= Self::size() <= 8,
    ;

    proof fn lemma_sample(x: Self)
        ensures
            x.value() < pow256(Self::size()),
    ;

    proof fn lemma_injective(x: Self, y: Self)
        ensures
            x.value() == y.value() ==> x == y,
    ;

    fn byte_size() -> (n: usize)
        ensures
            n == Self::size(),
    ;

    fn from_uint(v: u64) -> (r: Self)
        requires
            v < pow256(Self::size()),
        ensures
            r.value() == v,
    ;

    fn to_uint(&self) -> (v: u64)
        ensures
            v == self.value(),
    ;
}

/// The numbers that a sequence of samples holds.
pub open spec fn values_of<T: Sample>(s: Seq<T>) -> Seq<nat> {
    s.map_values(|x: T| x.value())
}

impl Sample for u8 {
    open spec fn size() -> nat {
        1
    }

    open spec fn value(&self) -> nat {
        *self as nat
    }

    proof fn lemma_size() {
    }

    proof fn lemma_sample(x: Self) {
        lemma_pow256_values();
    }

    proof fn lemma_injective(x: Self, y: Self) {
    }

    fn byte_size() -> (n: usize) {
        1
    }

    fn from_uint(v: u64) -> (r: Self) {
        proof {
            lemma_pow256_values();
        }
        v as u8
    }

    fn to_uint(&self) -> (v: u64) {
        *self as u64
    }
}

impl Sample for u16 {
    open spec fn size() -> nat {
        2
    }

    open spec fn value(&self) -> nat {
        *self as nat
    }

    proof fn lemma_size() {
    }

    proof fn lemma_sample(x: Self) {
        lemma_pow256_values();
    }

    proof fn lemma_injective(x: Self, y: Self) {
    }

    fn byte_size() -> (n: usize) {
        2
    }

    fn from_uint(v: u64) -> (r: Self) {
        proof {
            lemma_pow256_values();
        }
        v as u16
    }

    fn to_uint(&self) -> (v: u64) {
        *self as u64
    }
}

impl Sample for u32 {
    open spec fn size() -> nat {
        4
    }

    open spec fn value(&self) -> nat {
        *self as nat
    }

    proof fn lemma_size() {
    }

    proof fn lemma_sample(x: Self) {
        lemma_pow256_values();
    }

    proof fn lemma_injective(x: Self, y: Self) {
    }

    fn byte_size() -> (n: usize) {
        4
    }

    fn from_uint(v: u64) -> (r: Self) {
        proof {
            lemma_pow256_values();
        }
        v as u32
    }

    fn to_uint(&self) -> (v: u64) {
        *self as u64
    }
}

impl Sample for u64 {
    open spec fn size() -> nat {
        8
    }

    open spec fn value(&self) -> nat {
        *self as nat
    }

    proof fn lemma_size() {
    }

    proof fn lemma_sample(x: Self) {
        lemma_pow256_values();
    }

    proof fn lemma_injective(x: Self, y: Self) {
    }

    fn byte_size() -> (n: usize) {
        8
    }

    fn from_uint(v: u64) -> (r: Self) {
        v
    }

    fn to_uint(&self) -> (v: u64) {
        *self
    }
}

} // verus!
