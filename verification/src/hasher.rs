//! What a tree needs from outside: a zero element for the values of its
//! leaves, a hash for a leaf's value and a hash for a pair of digests.

use std::marker::PhantomData;
use vstd::prelude::*;

verus! {

/// The hash functions of a tree over leaf values made of elements `F`, with
/// the zero element that fills a leaf nobody wrote.
///
/// Each operation is a function of its arguments: it returns what the spec
/// function of the same name says, whenever it is called. That two values
/// with different hashes are different follows; that two different values
/// have different hashes is the hash function's own matter and is not asked
/// for here.
pub trait Hasher<F>: Sized {
    /// A digest.
    type Hash: Copy;

    /// The zero element.
    spec fn zero_spec(&self) -> F;

    /// The hash of a leaf's value.
    spec fn leaf_hash_spec(&self, value: Seq<F>) -> Self::Hash;

    /// The hash of an inner node, from the hashes of its left and right
    /// child.
    spec fn two_to_one_spec(&self, left: Self::Hash, right: Self::Hash) -> Self::Hash;

    /// Gives the zero element.
    fn zero(&self) -> (zero: F)
        ensures
            zero == self.zero_spec(),
    ;

    /// Computes the hash of a leaf's value.
    fn leaf_hash(&self, value: &Vec<F>) -> (digest: Self::Hash)
        ensures
            digest == self.leaf_hash_spec(value@),
    ;

    /// Computes the hash of an inner node.
    fn two_to_one(&self, left: Self::Hash, right: Self::Hash) -> (digest: Self::Hash)
        ensures
            digest == self.two_to_one_spec(left, right),
    ;
}

/// `leaf` can return `digest` when called on a value whose elements are
/// `value`.
pub open spec fn leaf_fn_gives<F, D, L: Fn(&Vec<F>) -> D>(
    leaf: L,
    value: Seq<F>,
    digest: D,
) -> bool {
    exists|v: Vec<F>| v@ == value && #[trigger] call_ensures(leaf, (&v,), digest)
}

/// `leaf` may be called on every value, and what it returns depends on the
/// elements of the value alone.
pub open spec fn leaf_fn_ok<F, D, L: Fn(&Vec<F>) -> D>(leaf: L) -> bool {
    &&& forall|v: Vec<F>| call_requires(leaf, (&v,))
    &&& forall|v: Vec<F>, w: Vec<F>, a: D, b: D|
        v@ == w@ && call_ensures(leaf, (&v,), a) && call_ensures(leaf, (&w,), b) ==> a == b
}

/// `node` may be called on every pair of digests, and what it returns
/// depends on the pair alone.
pub open spec fn node_fn_ok<D, N: Fn(D, D) -> D>(node: N) -> bool {
    &&& forall|l: D, r: D| call_requires(node, (l, r))
    &&& forall|l: D, r: D, a: D, b: D|
        call_ensures(node, (l, r), a) && call_ensures(node, (l, r), b) ==> a == b
}

/// A hasher made of a zero element and two functions handed in as values.
/// This is how code that is not verified, and hash functions that are not,
/// are plugged into a tree.
#[verifier::reject_recursive_types(F)]
#[verifier::reject_recursive_types(D)]
pub struct FnHasher<F: Copy, D: Copy, L: Fn(&Vec<F>) -> D, N: Fn(D, D) -> D> {
    zero: F,
    leaf: L,
    node: N,
    digest: PhantomData<D>,
}

impl<F: Copy, D: Copy, L: Fn(&Vec<F>) -> D, N: Fn(D, D) -> D> FnHasher<F, D, L, N> {
    #[verifier::type_invariant]
    spec fn functions_ok(self) -> bool {
        leaf_fn_ok::<F, D, L>(self.leaf) && node_fn_ok::<D, N>(self.node)
    }

    /// The hasher whose zero element is `zero`, whose leaf hash is `leaf` and
    /// whose two-to-one hash is `node`. Both functions must be functions in
    /// the mathematical sense: defined everywhere, and giving one result for
    /// one input.
    pub fn new(zero: F, leaf: L, node: N) -> (hasher: Self)
        requires
            leaf_fn_ok::<F, D, L>(leaf),
            node_fn_ok::<D, N>(node),
        ensures
            hasher.zero_spec() == zero,
            forall|value: Vec<F>, digest: D| #[trigger]
                call_ensures(leaf, (&value,), digest) ==> hasher.leaf_hash_spec(value@) == digest,
            forall|left: D, right: D, digest: D| #[trigger]
                call_ensures(node, (left, right), digest) ==> hasher.two_to_one_spec(left, right)
                    == digest,
    {
        let hasher = FnHasher { zero, leaf, node, digest: PhantomData };
        assert forall|value: Vec<F>, digest: D| #[trigger]
            call_ensures(leaf, (&value,), digest) implies hasher.leaf_hash_spec(value@)
            == digest by {
            assert(leaf_fn_gives::<F, D, L>(leaf, value@, digest));
        }
        hasher
    }
}

impl<F: Copy, D: Copy, L: Fn(&Vec<F>) -> D, N: Fn(D, D) -> D> Hasher<F> for FnHasher<F, D, L, N> {
    type Hash = D;

    closed spec fn zero_spec(&self) -> F {
        self.zero
    }

    closed spec fn leaf_hash_spec(&self, value: Seq<F>) -> D {
        choose|digest: D| leaf_fn_gives::<F, D, L>(self.leaf, value, digest)
    }

    closed spec fn two_to_one_spec(&self, left: D, right: D) -> D {
        choose|digest: D| call_ensures(self.node, (left, right), digest)
    }

    fn zero(&self) -> (zero: F) {
        self.zero
    }

    fn leaf_hash(&self, value: &Vec<F>) -> (digest: D) {
        proof {
            use_type_invariant(self);
        }
        let digest = (self.leaf)(value);
        assert(leaf_fn_gives::<F, D, L>(self.leaf, value@, digest));
        digest
    }

    fn two_to_one(&self, left: D, right: D) -> (digest: D) {
        proof {
            use_type_invariant(self);
        }
        (self.node)(left, right)
    }
}

} // verus!
