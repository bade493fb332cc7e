//! Exact 256-bit unsigned arithmetic, wide enough to evaluate the scoring
//! formula's numerator and denominator without overflow for any string
//! lengths a machine can hold.
use vstd::prelude::*;

verus! {

pub(crate) open spec fn b64() -> nat {
    0x1_0000_0000_0000_0000nat
}

pub(crate) open spec fn b128() -> nat {
    0x1_0000_0000_0000_0000_0000_0000_0000_0000nat
}

pub(crate) open spec fn b192() -> nat {
    0x1_0000_0000_0000_0000_0000_0000_0000_0000_0000_0000_0000_0000nat
}

pub(crate) open spec fn b256() -> nat {
    0x1_0000_0000_0000_0000_0000_0000_0000_0000_0000_0000_0000_0000_0000_0000_0000_0000nat
}

/// 2 to the power k, for the binary long division below.
pub(crate) open spec fn p2(k: nat) -> nat
    decreases k,
{
    if k == 0 {
        1
    } else {
        2 * p2((k - 1) as nat)
    }
}

pub(crate) proof fn lemma_p2_pos(k: nat)
    ensures
        p2(k) >= 1,
    decreases k,
{
    if k > 0 {
        lemma_p2_pos((k - 1) as nat);
    }
}

pub(crate) proof fn lemma_p2_values()
    ensures
        p2(0) == 1 && p2(1) == 2 && p2(2) == 4 && p2(3) == 8 && p2(4) == 16 && p2(5) == 32 && p2(6)
            == 64 && p2(7) == 128 && p2(8) == 256 && p2(9) == 512 && p2(10) == 1024 && p2(11)
            == 2048,
{
    assert(p2(0) == 1);
    assert(p2(1) == 2);
    assert(p2(2) == 4);
    assert(p2(3) == 8);
    assert(p2(4) == 16);
    assert(p2(5) == 32);
    assert(p2(6) == 64);
    assert(p2(7) == 128);
    assert(p2(8) == 256);
    assert(p2(9) == 512);
    assert(p2(10) == 1024);
    assert(p2(11) == 2048);
}

/// An unsigned 256-bit value, split into two 128-bit halves.
#[derive(Clone, Copy)]
pub(crate) struct U256 {
    pub hi: u128,
    pub lo: u128,
}

impl U256 {
    pub(crate) open spec fn val(self) -> nat {
        (self.hi as nat) * b128() + (self.lo as nat)
    }

    pub(crate) fn from_u128(x: u128) -> (r: U256)
        ensures
            r.val() == x,
    {
        U256 { hi: 0, lo: x }
    }

    /// Exact sum; the caller shows it fits in 256 bits.
    pub(crate) fn plus(self, other: U256) -> (r: U256)
        requires
            self.val() + other.val() < b256(),
        ensures
            r.val() == self.val() + other.val(),
    {
        let carry: bool = self.lo > u128::MAX - other.lo;
        let lo: u128 = if carry {
            self.lo - (u128::MAX - other.lo) - 1
        } else {
            self.lo + other.lo
        };
        let hi: u128 = if carry {
            self.hi + other.hi + 1
        } else {
            self.hi + other.hi
        };
        U256 { hi, lo }
    }

    /// Exact difference; the caller shows the minuend is no smaller.
    pub(crate) fn minus(self, other: U256) -> (r: U256)
        requires
            self.val() >= other.val(),
        ensures
            r.val() == self.val() - other.val(),
    {
        let borrow: bool = self.lo < other.lo;
        let lo: u128 = if borrow {
            (u128::MAX - other.lo) + self.lo + 1
        } else {
            self.lo - other.lo
        };
        let hi: u128 = if borrow {
            self.hi - other.hi - 1
        } else {
            self.hi - other.hi
        };
        U256 { hi, lo }
    }

    pub(crate) fn geq(&self, other: &U256) -> (r: bool)
        ensures
            r == (self.val() >= other.val()),
    {
        if self.hi != other.hi {
            self.hi > other.hi
        } else {
            self.lo >= other.lo
        }
    }

    /// Exact product with a 64-bit factor, by 64-bit limbs.
    pub(crate) fn times_small(self, m: u64) -> (r: U256)
        requires
            self.val() * m < b256(),
        ensures
            r.val() == self.val() * m,
    {
        let a0: u128 = self.lo % 0x1_0000_0000_0000_0000;
        let a1: u128 = self.lo / 0x1_0000_0000_0000_0000;
        let a2: u128 = self.hi % 0x1_0000_0000_0000_0000;
        let a3: u128 = self.hi / 0x1_0000_0000_0000_0000;
        let mw: u128 = m as u128;
        proof {
            assert(a0 * mw <= 0xFFFF_FFFF_FFFF_FFFE_0000_0000_0000_0001nat
                && a1 * mw <= 0xFFFF_FFFF_FFFF_FFFE_0000_0000_0000_0001nat
                && a2 * mw <= 0xFFFF_FFFF_FFFF_FFFE_0000_0000_0000_0001nat
                && a3 * mw <= 0xFFFF_FFFF_FFFF_FFFE_0000_0000_0000_0001nat)
                by (nonlinear_arith)
                requires
                    a0 < 0x1_0000_0000_0000_0000nat && a1 < 0x1_0000_0000_0000_0000nat
                        && a2 < 0x1_0000_0000_0000_0000nat && a3 < 0x1_0000_0000_0000_0000nat
                        && mw < 0x1_0000_0000_0000_0000nat,
            ;
        }
        let p0: u128 = a0 * mw;
        let l0: u128 = p0 % 0x1_0000_0000_0000_0000;
        let c0: u128 = p0 / 0x1_0000_0000_0000_0000;
        let p1: u128 = a1 * mw + c0;
        let l1: u128 = p1 % 0x1_0000_0000_0000_0000;
        let c1: u128 = p1 / 0x1_0000_0000_0000_0000;
        let p2: u128 = a2 * mw + c1;
        let l2: u128 = p2 % 0x1_0000_0000_0000_0000;
        let c2: u128 = p2 / 0x1_0000_0000_0000_0000;
        let p3: u128 = a3 * mw + c2;
        let l3: u128 = p3 % 0x1_0000_0000_0000_0000;
        let c3: u128 = p3 / 0x1_0000_0000_0000_0000;
        let r = U256 { hi: l3 * 0x1_0000_0000_0000_0000 + l2, lo: l1 * 0x1_0000_0000_0000_0000 + l0 };
        proof {
            assert(self.lo * mw == a1 * mw * b64() + a0 * mw) by (nonlinear_arith)
                requires
                    self.lo == a1 * b64() + a0,
            ;
            assert(self.hi * mw == a3 * mw * b64() + a2 * mw) by (nonlinear_arith)
                requires
                    self.hi == a3 * b64() + a2,
            ;
            assert(self.val() * mw == self.hi * mw * b128() + self.lo * mw) by (nonlinear_arith)
                requires
                    self.val() == (self.hi as nat) * b128() + self.lo,
            ;
            assert(self.hi * mw * b128() == a3 * mw * b192() + a2 * mw * b128())
                by (nonlinear_arith)
                requires
                    self.hi * mw == a3 * mw * b64() + a2 * mw,
            ;
            // Gather the carry chain into the four result limbs.
            assert(self.val() * mw == c3 * b256() + l3 * b192() + l2 * b128() + l1 * b64() + l0);
            assert(c3 == 0) by {
                if c3 >= 1 {
                    assert(self.val() * mw >= b256());
                }
            }
            assert(r.val() == self.val() * m);
        }
        r
    }

    /// Quotient and remainder by a nonzero divisor, by binary long
    /// division; the caller shows the quotient is below 2048.
    pub(crate) fn divmod_small(self, d: &U256) -> (qr: (u64, U256))
        requires
            d.val() > 0,
            self.val() < 2048 * d.val(),
            2048 * d.val() < b256(),
        ensures
            self.val() == (qr.0 as nat) * d.val() + qr.1.val(),
            qr.1.val() < d.val(),
            qr.0 < 2048,
    {
        let mut powers: Vec<U256> = Vec::new();
        proof {
            lemma_p2_values();
        }
        powers.push(*d);
        proof {
            assert(powers@[0] == *d);
            assert(d.val() * p2(0) == d.val()) by (nonlinear_arith)
                requires
                    p2(0) == 1,
            ;
        }
        let mut k: usize = 1;
        while k < 11
            invariant
                1 <= k <= 11,
                powers@.len() == k,
                d.val() > 0,
                2048 * d.val() < b256(),
                forall|j: int| 0 <= j < k ==> (#[trigger] powers@[j]).val() == d.val() * p2(
                    j as nat,
                ),
            decreases 11 - k,
        {
            let prev = powers[k - 1];
            proof {
                lemma_p2_values();
                assert(d.val() * p2((k - 1) as nat) + d.val() * p2((k - 1) as nat) == d.val() * p2(
                    k as nat,
                )) by (nonlinear_arith)
                    requires
                        p2(k as nat) == 2 * p2((k - 1) as nat),
                ;
                assert(d.val() * p2(k as nat) <= d.val() * 2048) by (nonlinear_arith)
                    requires
                        p2(k as nat) <= 2048,
                        d.val() >= 0,
                ;
            }
            let next = prev.plus(prev);
            powers.push(next);
            k += 1;
        }
        let mut q: u64 = 0;
        let mut r: U256 = self;
        let mut pow: u64 = 2048;
        let mut i: usize = 11;
        proof {
            lemma_p2_values();
        }
        while i > 0
            invariant
                i <= 11,
                pow == p2(i as nat),
                powers@.len() == 11,
                d.val() > 0,
                forall|j: int| 0 <= j < 11 ==> (#[trigger] powers@[j]).val() == d.val() * p2(
                    j as nat,
                ),
                r.val() < d.val() * p2(i as nat),
                self.val() == (q as nat) * d.val() + r.val(),
                q + pow <= 2048,
            decreases i,
        {
            i -= 1;
            pow = pow / 2;
            let pk = powers[i];
            proof {
                assert(d.val() * p2((i + 1) as nat) == 2 * (d.val() * p2(i as nat)))
                    by (nonlinear_arith)
                    requires
                        p2((i + 1) as nat) == 2 * p2(i as nat),
                ;
                lemma_p2_pos(i as nat);
                lemma_p2_values();
            }
            if r.geq(&pk) {
                proof {
                    assert(pk.val() == d.val() * p2(i as nat));
                }
                r = r.minus(pk);
                proof {
                    vstd::arithmetic::mul::lemma_mul_is_distributive_add_other_way(
                        d.val() as int,
                        q as int,
                        pow as int,
                    );
                    assert((pow as nat) * d.val() == d.val() * p2(i as nat)) by (nonlinear_arith)
                        requires
                            pow == p2(i as nat),
                    ;
                }
                q = q + pow;
            }
        }
        proof {
            lemma_p2_values();
            assert(d.val() * p2(0) == d.val()) by (nonlinear_arith)
                requires
                    p2(0) == 1,
            ;
        }
        (q, r)
    }
}

} // verus!
