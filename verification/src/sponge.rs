//! The algebraic sponge that drives the Fiat-Shamir transcript.
//!
//! Prover and verifier absorb the same public values in the same order and
//! squeeze the same challenges; the whole construction is executable, verified
//! code over the scalar field, so transcript agreement is a theorem rather
//! than a convention.  The permutation is a quintic S-box with a round
//! constant, enough for the deterministic challenge derivation the protocol
//! needs.

use vstd::prelude::*;

use crate::scalar::{Scalar, fr_add, fr_mul, fr_order, scalar_from_u64, scalar_zero};

verus! {

/// The round constant added after each S-box application.
pub open spec fn round_constant() -> int {
    7
}

/// The domain tag added before a challenge is squeezed.
pub open spec fn squeeze_tag() -> int {
    5
}

/// The sponge permutation: a quintic S-box followed by a round constant.
pub open spec fn spec_perm(t: int) -> int {
    let t2 = (t * t) % fr_order();
    let t4 = (t2 * t2) % fr_order();
    ((t4 * t) % fr_order() + round_constant()) % fr_order()
}

/// The state after absorbing one field element.
pub open spec fn spec_absorb(s: int, x: int) -> int {
    spec_perm((s + x) % fr_order())
}

/// The state after absorbing a byte string, one byte per element.
pub open spec fn spec_absorb_bytes(s: int, bs: Seq<u8>) -> int
    decreases bs.len(),
{
    if bs.len() == 0 {
        s
    } else {
        spec_absorb_bytes(spec_absorb(s, bs[0] as int), bs.skip(1))
    }
}

/// The state after a squeeze step; the new state is the challenge.
pub open spec fn spec_squeeze(s: int) -> int {
    spec_perm((s + squeeze_tag()) % fr_order())
}

/// The transcript sponge: absorbs public values, squeezes challenges.
pub struct Sponge {
    pub state: Scalar,
}

impl Sponge {
    pub open spec fn wf(&self) -> bool {
        self.state.wf()
    }

    /// A fresh sponge with zero state.
    pub fn new() -> (r: Sponge)
        ensures
            r.wf(),
            r.state@ == 0,
    {
        Sponge { state: scalar_zero() }
    }

    /// Absorbs one field element.
    pub fn absorb(&mut self, x: &Scalar)
        requires
            old(self).wf(),
            x.wf(),
        ensures
            final(self).wf(),
            final(self).state@ == spec_absorb(old(self).state@, x@),
    {
        let t = fr_add(&self.state, x);
        let t2 = fr_mul(&t, &t);
        let t4 = fr_mul(&t2, &t2);
        let t5 = fr_mul(&t4, &t);
        let c = scalar_from_u64(7);
        self.state = fr_add(&t5, &c);
    }

    /// Absorbs a byte string, one byte per element.
    pub fn absorb_bytes(&mut self, bs: &Vec<u8>)
        requires
            old(self).wf(),
        ensures
            final(self).wf(),
            final(self).state@ == spec_absorb_bytes(old(self).state@, bs@),
    {
        let ghost orig: int = self.state@;
        let mut i: usize = 0;
        proof {
            assert(bs@.skip(0) =~= bs@);
        }
        while i < bs.len()
            invariant
                i <= bs@.len(),
                self.wf(),
                spec_absorb_bytes(orig, bs@) == spec_absorb_bytes(self.state@, bs@.skip(i as int)),
            decreases bs@.len() - i,
        {
            let x = scalar_from_u64(bs[i] as u64);
            proof {
                assert(bs@.skip(i as int)[0] == bs@[i as int]);
                assert(bs@.skip(i as int).skip(1) =~= bs@.skip(i + 1));
            }
            self.absorb(&x);
            i = i + 1;
        }
        proof {
            assert(bs@.skip(bs@.len() as int) =~= Seq::<u8>::empty());
        }
    }

    /// Squeezes one challenge; the state advances so successive squeezes give
    /// independent challenges.
    pub fn squeeze(&mut self) -> (r: Scalar)
        requires
            old(self).wf(),
        ensures
            final(self).wf(),
            final(self).state@ == spec_squeeze(old(self).state@),
            r.wf(),
            r@ == spec_squeeze(old(self).state@),
    {
        let tag = scalar_from_u64(5);
        let t = fr_add(&self.state, &tag);
        let t2 = fr_mul(&t, &t);
        let t4 = fr_mul(&t2, &t2);
        let t5 = fr_mul(&t4, &t);
        let c = scalar_from_u64(7);
        self.state = fr_add(&t5, &c);
        self.state.clone()
    }
}

} // verus!
