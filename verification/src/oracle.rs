//! The padding oracle: the only capability the attack needs from its victim.
use vstd::prelude::*;
use crate::block::{has_valid_padding, valid_padding, xor_blocks, xor_bytes, Block, BLOCK_SIZE};

verus! {

/// A deterministic padding oracle.
///
/// The attacker hands over a reference block and a target block; the victim
/// decrypts the target with the reference as CBC chaining value and reveals
/// only whether the padding of the outcome is well formed.
pub trait PaddingOracle {
    /// The answer function of this oracle: what `check` says for every pair
    /// of blocks.
    spec fn answers(&self) -> spec_fn(Seq<u8>, Seq<u8>) -> bool;

    /// Asks the oracle about one pair of blocks.  The oracle may keep books
    /// (`&mut self`), but its answers never change.
    fn check(&mut self, reference: &Block, target: &Block) -> (ok: bool)
        requires
            reference@.len() == BLOCK_SIZE,
            target@.len() == BLOCK_SIZE,
        ensures
            ok == (old(self).answers())(reference@, target@),
            final(self).answers() == old(self).answers(),
    ;
}

/// An oracle that gives the same answer to every query.  With `false` it
/// stands for a victim that reveals nothing.
pub struct Constant {
    pub answer: bool,
}

impl PaddingOracle for Constant {
    open spec fn answers(&self) -> spec_fn(Seq<u8>, Seq<u8>) -> bool {
        |reference: Seq<u8>, target: Seq<u8>| self.answer
    }

    fn check(&mut self, reference: &Block, target: &Block) -> (ok: bool) {
        self.answer
    }
}

/// A stand-in for a real victim: it "decrypts" every target block to the
/// same intermediate value and judges the padding of that value XORed with
/// the reference block.
pub struct FixedIntermediate {
    pub intermediate: Block,
}

impl PaddingOracle for FixedIntermediate {
    open spec fn answers(&self) -> spec_fn(Seq<u8>, Seq<u8>) -> bool {
        |reference: Seq<u8>, target: Seq<u8>|
            valid_padding(xor_bytes(reference, self.intermediate@))
    }

    fn check(&mut self, reference: &Block, target: &Block) -> (ok: bool) {
        let plain = xor_blocks(reference, &self.intermediate);
        has_valid_padding(plain.as_slice())
    }
}

impl FixedIntermediate {
    /// The oracle answers truthfully for the decryption that maps every
    /// block to `intermediate`.
    pub proof fn lemma_faithful(&self)
        ensures
            crate::correctness::faithful(self.answers(), |target: Seq<u8>| self.intermediate@),
    {
    }
}

/// An oracle that forwards every query to another one and counts them.
pub struct Counting<O: PaddingOracle> {
    pub inner: O,
    pub queries: u64,
}

impl<O: PaddingOracle> Counting<O> {
    /// Wraps `inner` with the count at zero.
    pub fn new(inner: O) -> (counting: Self)
        ensures
            counting.inner == inner,
            counting.queries == 0,
    {
        Counting { inner, queries: 0 }
    }
}

impl<O: PaddingOracle> PaddingOracle for Counting<O> {
    open spec fn answers(&self) -> spec_fn(Seq<u8>, Seq<u8>) -> bool {
        self.inner.answers()
    }

    /// Forwards the query; the count grows by one until it saturates.
    fn check(&mut self, reference: &Block, target: &Block) -> (ok: bool)
        ensures
            final(self).queries == if old(self).queries < u64::MAX {
                old(self).queries + 1
            } else {
                u64::MAX as int
            },
    {
        if self.queries < u64::MAX {
            self.queries += 1;
        }
        self.inner.check(reference, target)
    }
}

} // verus!
