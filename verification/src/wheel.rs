//! A wheel over the residues coprime to 30: the candidate generator of
//! the sieve engine. It produces, in ascending order, exactly the
//! integers that no multiple of 2, 3 or 5 can equal — a ~3.75x density
//! reduction of the search space.

use crate::arith::is_prime_spec;
use vstd::arithmetic::div_mod::{
    lemma_fundamental_div_mod, lemma_mod_add_multiples_vanish, lemma_mod_multiples_vanish,
};
use vstd::prelude::*;

verus! {

/// The residue coprime to 30 at position `i` of the wheel.
pub open spec fn wheel_residue(i: int) -> int {
    if i == 0 {
        1
    } else if i == 1 {
        7
    } else if i == 2 {
        11
    } else if i == 3 {
        13
    } else if i == 4 {
        17
    } else if i == 5 {
        19
    } else if i == 6 {
        23
    } else {
        29
    }
}

/// `x` shares no factor with 30: it is a multiple of none of 2, 3 and 5.
pub open spec fn coprime30(x: int) -> bool {
    x % 2 != 0 && x % 3 != 0 && x % 5 != 0
}

/// Above 5, a number that shares a factor with 30 is composite.
pub proof fn lemma_noncoprime30_composite(x: int)
    requires
        x > 5,
        !coprime30(x),
    ensures
        !is_prime_spec(x),
{
    if x % 2 == 0 {
        assert(2 <= 2 < x && x % 2 == 0);
    } else if x % 3 == 0 {
        assert(2 <= 3 < x && x % 3 == 0);
    } else {
        assert(2 <= 5 < x && x % 5 == 0);
    }
}

/// Adding a multiple of 30 to an offset does not change the offset's
/// residues modulo 2, 3 and 5.
proof fn lemma_offset_from_base(b: int, d: int)
    requires
        b % 30 == 0,
        0 <= b,
        0 <= d,
    ensures
        (b + d) % 2 == d % 2,
        (b + d) % 3 == d % 3,
        (b + d) % 5 == d % 5,
{
    lemma_fundamental_div_mod(b, 30);
    let k = b / 30;
    assert(b == 30 * k);
    assert(b + d == 2 * (15 * k) + d && b + d == 3 * (10 * k) + d && b + d == 5 * (6 * k) + d)
        by (nonlinear_arith)
        requires
            b == 30 * k,
    ;
    lemma_mod_multiples_vanish(15 * k, d, 2);
    lemma_mod_multiples_vanish(10 * k, d, 3);
    lemma_mod_multiples_vanish(6 * k, d, 5);
}

/// Offsets below 30 that are not on the wheel share a factor with 30.
proof fn lemma_gap_offsets_not_coprime(d: int)
    requires
        0 <= d < 31,
        d != 1 && d != 7 && d != 11 && d != 13 && d != 17 && d != 19 && d != 23 && d != 29,
    ensures
        d % 2 == 0 || d % 3 == 0 || d % 5 == 0,
{
}

/// The wheel's cursor: a base that is a multiple of 30, and an index
/// into the residue table. The base is wider than the primes it helps
/// find so that stepping it can never wrap.
#[derive(Clone, Copy)]
pub(crate) struct Wheel30 {
    pub(crate) base: u128,
    pub(crate) ix: usize,
}

impl Wheel30 {
    pub(crate) open spec fn wf(&self) -> bool {
        self.ix < 8 && (self.base as int) % 30 == 0
    }

    /// The candidate the next call of `next` will produce.
    pub(crate) open spec fn value(&self) -> int {
        self.base as int + wheel_residue(self.ix as int)
    }

    /// The candidate the next call of `next` will produce, without
    /// stepping the wheel.
    pub(crate) fn peek(&self) -> (value: u128)
        requires
            self.wf(),
            self.base as int + 30 <= u128::MAX as int,
        ensures
            value as int == self.value(),
    {
        let r: u64 = match self.ix {
            0 => 1,
            1 => 7,
            2 => 11,
            3 => 13,
            4 => 17,
            5 => 19,
            6 => 23,
            _ => 29,
        };
        self.base + r as u128
    }

    /// Returns the current candidate and steps the wheel: the next
    /// candidate is the least integer coprime to 30 above this one.
    pub(crate) fn next(&mut self) -> (value: u128)
        requires
            old(self).wf(),
            old(self).base as int + 30 <= u128::MAX as int,
        ensures
            final(self).wf(),
            value as int == old(self).value(),
            coprime30(value as int),
            old(self).value() < final(self).value(),
            final(self).value() <= old(self).value() + 30,
            forall|y: int|
                old(self).value() < y && y < final(self).value() ==> !coprime30(y),
            final(self).base as int <= old(self).base as int + 30,
    {
        let ghost b = self.base as int;
        let ghost i = self.ix as int;
        let r: u64 = match self.ix {
            0 => 1,
            1 => 7,
            2 => 11,
            3 => 13,
            4 => 17,
            5 => 19,
            6 => 23,
            _ => 29,
        };
        proof {
            assert(r as int == wheel_residue(i));
        }
        let value = self.base + r as u128;
        self.ix += 1;
        if self.ix >= 8 {
            self.ix = 0;
            self.base += 30;
        }
        proof {
            lemma_offset_from_base(b, wheel_residue(i));
            assert(coprime30(value as int));
            assert((self.base as int) % 30 == 0) by {
                if self.ix == 0 {
                    assert(self.base as int == b + 30);
                    lemma_mod_add_multiples_vanish(b, 30);
                }
            }
            let nv = self.value();
            assert(nv == if i < 7 {
                b + wheel_residue(i + 1)
            } else {
                b + 31
            });
            assert forall|y: int| (value as int) < y && y < nv implies !coprime30(y) by {
                let d = y - b;
                assert(wheel_residue(i) < d && d < 31);
                lemma_gap_offsets_not_coprime(d);
                lemma_offset_from_base(b, d);
            }
        }
        value
    }
}

} // verus!
