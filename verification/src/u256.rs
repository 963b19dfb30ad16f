use vstd::prelude::*;

verus! {

use vstd::arithmetic::div_mod::lemma_fundamental_div_mod;
use vstd::arithmetic::div_mod::lemma_fundamental_div_mod_converse;
use vstd::arithmetic::div_mod::lemma_small_mod;
use vstd::arithmetic::div_mod::lemma_mod_multiples_vanish;
use vstd::arithmetic::div_mod::lemma_add_mod_noop_right;
use vstd::arithmetic::div_mod::lemma_mul_mod_noop_left;
use vstd::arithmetic::power::pow;

/// The modulus of the fixed-width 256-bit integer type: 2^256.
/// All arithmetic on [`U256`] wraps around this value.
pub open spec fn u256_mod() -> nat {
    0x10000000000000000nat * 0x10000000000000000nat * 0x10000000000000000nat
        * 0x10000000000000000nat
}

/// A fixed-width 256-bit unsigned integer with wraparound (modulo 2^256)
/// arithmetic, stored as four 64-bit limbs, least significant first.
#[derive(Clone, Copy, PartialEq, Eq, Structural, Debug)]
pub struct U256 {
    pub limb0: u64,
    pub limb1: u64,
    pub limb2: u64,
    pub limb3: u64,
}

impl View for U256 {
    type V = nat;

    /// The mathematical value of the four limbs.
    open spec fn view(&self) -> nat {
        (self.limb0 as nat) + 0x10000000000000000nat * ((self.limb1 as nat)
            + 0x10000000000000000nat * ((self.limb2 as nat) + 0x10000000000000000nat * (
        self.limb3 as nat)))
    }
}

impl DeepView for U256 {
    type V = nat;

    open spec fn deep_view(&self) -> nat {
        self.view()
    }
}

/// Every value of the type lies below the modulus.
pub broadcast proof fn lemma_u256_bound(x: U256)
    ensures
        #[trigger] x@ < u256_mod(),
{
}

impl U256 {
    /// The zero value.
    pub fn zero() -> (r: U256)
        ensures
            r@ == 0,
    {
        U256 { limb0: 0, limb1: 0, limb2: 0, limb3: 0 }
    }

    /// Embed a 64-bit value.
    pub fn from_u64(x: u64) -> (r: U256)
        ensures
            r@ == x,
    {
        U256 { limb0: x, limb1: 0, limb2: 0, limb3: 0 }
    }

    /// True exactly on the zero value.
    pub fn is_zero(self) -> (r: bool)
        ensures
            r == (self@ == 0),
    {
        self.limb0 == 0 && self.limb1 == 0 && self.limb2 == 0 && self.limb3 == 0
    }

    /// True exactly when the value fits in 64 bits.
    pub fn fits_u64(self) -> (r: bool)
        ensures
            r == (self@ < 0x10000000000000000),
    {
        self.limb1 == 0 && self.limb2 == 0 && self.limb3 == 0
    }

    /// The low 64 bits, for values that fit in them.
    pub fn as_u64(self) -> (r: u64)
        requires
            self@ < 0x10000000000000000,
        ensures
            r == self@,
    {
        self.limb0
    }

    /// Strict comparison of the mathematical values.
    pub fn lt(self, rhs: U256) -> (r: bool)
        ensures
            r == (self@ < rhs@),
    {
        if self.limb3 != rhs.limb3 {
            self.limb3 < rhs.limb3
        } else if self.limb2 != rhs.limb2 {
            self.limb2 < rhs.limb2
        } else if self.limb1 != rhs.limb1 {
            self.limb1 < rhs.limb1
        } else {
            self.limb0 < rhs.limb0
        }
    }

    /// Addition with carry: the pair returned satisfies
    /// `sum + carry * 2^256 == self + rhs` with `carry <= 1`.
    fn add_carry(self, rhs: U256) -> (r: (U256, u64))
        ensures
            r.1 <= 1,
            r.1 == 0 ==> r.0@ == self@ + rhs@,
            r.1 == 1 ==> r.0@ + u256_mod() == self@ + rhs@,
    {
        let t0: u128 = self.limb0 as u128 + rhs.limb0 as u128;
        let s0: u64 = (t0 % 0x10000000000000000u128) as u64;
        let c0: u64 = (t0 / 0x10000000000000000u128) as u64;
        let t1: u128 = self.limb1 as u128 + rhs.limb1 as u128 + c0 as u128;
        let s1: u64 = (t1 % 0x10000000000000000u128) as u64;
        let c1: u64 = (t1 / 0x10000000000000000u128) as u64;
        let t2: u128 = self.limb2 as u128 + rhs.limb2 as u128 + c1 as u128;
        let s2: u64 = (t2 % 0x10000000000000000u128) as u64;
        let c2: u64 = (t2 / 0x10000000000000000u128) as u64;
        let t3: u128 = self.limb3 as u128 + rhs.limb3 as u128 + c2 as u128;
        let s3: u64 = (t3 % 0x10000000000000000u128) as u64;
        let c3: u64 = (t3 / 0x10000000000000000u128) as u64;
        proof {
            lemma_fundamental_div_mod(t0 as int, 0x10000000000000000);
            lemma_fundamental_div_mod(t1 as int, 0x10000000000000000);
            lemma_fundamental_div_mod(t2 as int, 0x10000000000000000);
            lemma_fundamental_div_mod(t3 as int, 0x10000000000000000);
        }
        (U256 { limb0: s0, limb1: s1, limb2: s2, limb3: s3 }, c3)
    }

    /// Addition modulo 2^256.
    pub fn wrapping_add(self, rhs: U256) -> (r: U256)
        ensures
            r@ == (self@ + rhs@) % u256_mod(),
    {
        let (s, c) = self.add_carry(rhs);
        proof {
            broadcast use lemma_u256_bound;

            if c == 0 {
                lemma_small_mod(s@, u256_mod());
            } else {
                lemma_mod_multiples_vanish(1, s@ as int, u256_mod() as int);
                lemma_small_mod(s@, u256_mod());
            }
        }
        s
    }

    /// Subtraction with borrow: without a borrow the difference is exact,
    /// with one it is offset by 2^256.
    fn sub_borrow(self, rhs: U256) -> (r: (U256, u64))
        ensures
            r.1 <= 1,
            r.1 == 0 ==> self@ >= rhs@ && r.0@ == self@ - rhs@,
            r.1 == 1 ==> self@ < rhs@ && r.0@ == self@ + u256_mod() - rhs@,
    {
        let t0: u128 = 0x10000000000000000u128 + self.limb0 as u128 - rhs.limb0 as u128;
        let s0: u64 = (t0 % 0x10000000000000000u128) as u64;
        let n0: u64 = (t0 / 0x10000000000000000u128) as u64;
        let t1: u128 = 0x10000000000000000u128 + self.limb1 as u128 - rhs.limb1 as u128 - (1 - n0)
            as u128;
        let s1: u64 = (t1 % 0x10000000000000000u128) as u64;
        let n1: u64 = (t1 / 0x10000000000000000u128) as u64;
        let t2: u128 = 0x10000000000000000u128 + self.limb2 as u128 - rhs.limb2 as u128 - (1 - n1)
            as u128;
        let s2: u64 = (t2 % 0x10000000000000000u128) as u64;
        let n2: u64 = (t2 / 0x10000000000000000u128) as u64;
        let t3: u128 = 0x10000000000000000u128 + self.limb3 as u128 - rhs.limb3 as u128 - (1 - n2)
            as u128;
        let s3: u64 = (t3 % 0x10000000000000000u128) as u64;
        let n3: u64 = (t3 / 0x10000000000000000u128) as u64;
        proof {
            broadcast use lemma_u256_bound;

            lemma_fundamental_div_mod(t0 as int, 0x10000000000000000);
            lemma_fundamental_div_mod(t1 as int, 0x10000000000000000);
            lemma_fundamental_div_mod(t2 as int, 0x10000000000000000);
            lemma_fundamental_div_mod(t3 as int, 0x10000000000000000);
        }
        (U256 { limb0: s0, limb1: s1, limb2: s2, limb3: s3 }, 1 - n3)
    }

    /// Doubling with carry: without a carry the result is exactly twice the
    /// value, with one it is twice the value minus 2^256.
    fn shl1(self) -> (r: (U256, u64))
        ensures
            r.1 <= 1,
            r.1 == 0 ==> r.0@ == 2 * self@,
            r.1 == 1 ==> r.0@ + u256_mod() == 2 * self@,
    {
        let t0: u128 = 2 * (self.limb0 as u128);
        let s0: u64 = (t0 % 0x10000000000000000u128) as u64;
        let c0: u64 = (t0 / 0x10000000000000000u128) as u64;
        let t1: u128 = 2 * (self.limb1 as u128) + c0 as u128;
        let s1: u64 = (t1 % 0x10000000000000000u128) as u64;
        let c1: u64 = (t1 / 0x10000000000000000u128) as u64;
        let t2: u128 = 2 * (self.limb2 as u128) + c1 as u128;
        let s2: u64 = (t2 % 0x10000000000000000u128) as u64;
        let c2: u64 = (t2 / 0x10000000000000000u128) as u64;
        let t3: u128 = 2 * (self.limb3 as u128) + c2 as u128;
        let s3: u64 = (t3 % 0x10000000000000000u128) as u64;
        let c3: u64 = (t3 / 0x10000000000000000u128) as u64;
        proof {
            lemma_fundamental_div_mod(t0 as int, 0x10000000000000000);
            lemma_fundamental_div_mod(t1 as int, 0x10000000000000000);
            lemma_fundamental_div_mod(t2 as int, 0x10000000000000000);
            lemma_fundamental_div_mod(t3 as int, 0x10000000000000000);
        }
        (U256 { limb0: s0, limb1: s1, limb2: s2, limb3: s3 }, c3)
    }

    /// Halving: the result is the floor of the value divided by two.
    fn shr1(self) -> (r: U256)
        ensures
            r@ == self@ / 2,
    {
        let s0: u64 = self.limb0 / 2 + (self.limb1 % 2) * 0x8000000000000000;
        let s1: u64 = self.limb1 / 2 + (self.limb2 % 2) * 0x8000000000000000;
        let s2: u64 = self.limb2 / 2 + (self.limb3 % 2) * 0x8000000000000000;
        let s3: u64 = self.limb3 / 2;
        let r = U256 { limb0: s0, limb1: s1, limb2: s2, limb3: s3 };
        proof {
            assert(2 * r@ + (self.limb0 % 2) == self@);
            lemma_fundamental_div_mod_converse(
                self@ as int,
                2,
                r@ as int,
                (self.limb0 % 2) as int,
            );
        }
        r
    }

    /// True exactly on odd values.
    fn is_odd(self) -> (r: bool)
        ensures
            r == (self@ % 2 == 1),
    {
        proof {
            assert(self@ % 2 == self.limb0 % 2) by {
                lemma_mod_multiples_vanish(
                    0x8000000000000000 * ((self.limb1 as int) + 0x10000000000000000
                        * ((self.limb2 as int) + 0x10000000000000000 * (self.limb3 as int))),
                    self.limb0 as int,
                    2,
                );
            }
        }
        self.limb0 % 2 == 1
    }

    /// Multiplication modulo 2^256, by binary decomposition of the
    /// right-hand side.
    pub fn wrapping_mul(self, rhs: U256) -> (r: U256)
        ensures
            r@ == (self@ * rhs@) % u256_mod(),
    {
        let mut acc = U256::zero();
        let mut sh = self;
        let mut rem = rhs;
        proof {
            broadcast use lemma_u256_bound;

        }
        while !rem.is_zero()
            invariant
                (acc@ + sh@ * rem@) % u256_mod() == (self@ * rhs@) % u256_mod(),
            decreases rem@,
        {
            let ghost acc0 = acc@;
            let ghost sh0 = sh@;
            let ghost rem0 = rem@;
            let odd = rem.is_odd();
            if odd {
                acc = acc.wrapping_add(sh);
            }
            let (sh2, c) = sh.shl1();
            sh = sh2;
            rem = rem.shr1();
            proof {
                broadcast use lemma_u256_bound;

                let m = u256_mod();
                let q = rem0 / 2;
                let bit: nat = if odd {
                    1
                } else {
                    0
                };
                lemma_fundamental_div_mod(rem0 as int, 2);
                // The shifted value is twice the old one, modulo 2^256.
                assert(sh@ == (2 * sh0) % m) by {
                    if c == 0 {
                        lemma_small_mod((2 * sh0) as nat, m);
                    } else {
                        lemma_fundamental_div_mod_converse((2 * sh0) as int, m as int, 1, sh@ as int);
                    }
                }
                // The accumulator absorbed the bit.
                assert(acc@ == (acc0 + bit * sh0) % m) by {
                    if !odd {
                        lemma_small_mod(acc0, m);
                    }
                }
                // Fold both mod operations away and close the ring identity.
                assert((acc@ + sh@ * rem@) % m == (acc0 + bit * sh0 + (2 * sh0) % m * q) % m) by {
                    lemma_add_mod_noop_right((sh@ * rem@) as int, (acc0 + bit * sh0) as int, m as int);
                }
                assert(((2 * sh0) % m * q) % m == (2 * sh0 * q) % m) by {
                    lemma_mul_mod_noop_left((2 * sh0) as int, q as int, m as int);
                }
                assert((acc0 + bit * sh0 + (2 * sh0) % m * q) % m == (acc0 + bit * sh0 + 2 * sh0 * q)
                    % m) by {
                    lemma_add_mod_noop_right((acc0 + bit * sh0) as int, ((2 * sh0) % m * q) as int, m as int);
                    lemma_add_mod_noop_right((acc0 + bit * sh0) as int, (2 * sh0 * q) as int, m as int);
                }
                assert(bit * sh0 + 2 * sh0 * q == sh0 * rem0) by (nonlinear_arith)
                    requires
                        rem0 == 2 * q + bit,
                ;
            }
        }
        proof {
            broadcast use lemma_u256_bound;

            lemma_small_mod(acc@, u256_mod());
        }
        acc
    }

    /// Floor division of the mathematical values. The divisor must not be
    /// zero: the computation has no defined result there.
    pub fn div(self, rhs: U256) -> (r: U256)
        requires
            rhs@ != 0,
        ensures
            r@ == self@ / rhs@,
    {
        proof {
            broadcast use lemma_u256_bound;

        }
        // Collect the doublings of the divisor that do not exceed the dividend.
        let mut shifts: Vec<U256> = Vec::new();
        shifts.push(rhs);
        loop
            invariant_except_break
                rhs@ != 0,
                shifts.len() >= 1,
                shifts@[0]@ == rhs@,
                forall|i: int| 0 <= i < shifts.len() ==> #[trigger] shifts@[i]@ >= 1,
                forall|i: int| 1 <= i < shifts.len() ==> #[trigger] shifts@[i]@ == 2 * shifts@[i
                    - 1]@,
                forall|i: int| 1 <= i < shifts.len() ==> #[trigger] shifts@[i]@ <= self@,
            ensures
                rhs@ != 0,
                shifts.len() >= 1,
                shifts@[0]@ == rhs@,
                forall|i: int| 0 <= i < shifts.len() ==> #[trigger] shifts@[i]@ >= 1,
                forall|i: int| 1 <= i < shifts.len() ==> #[trigger] shifts@[i]@ == 2 * shifts@[i
                    - 1]@,
                self@ < 2 * shifts@.last()@,
            decreases self@ + 1 - shifts@.last()@,
        {
            let n = shifts.len();
            let d = shifts[n - 1];
            let (d2, c) = d.shl1();
            if c == 0 && !self.lt(d2) {
                shifts.push(d2);
            } else {
                proof {
                    broadcast use lemma_u256_bound;

                }
                break ;
            }
        }
        // Long division, one recorded doubling at a time.
        let mut q = U256::zero();
        let mut r = self;
        let one = U256::from_u64(1);
        while shifts.len() > 0
            invariant
                rhs@ != 0,
                shifts.len() >= 1 ==> shifts@[0]@ == rhs@,
                forall|i: int| 0 <= i < shifts.len() ==> #[trigger] shifts@[i]@ >= 1,
                forall|i: int| 1 <= i < shifts.len() ==> #[trigger] shifts@[i]@ == 2 * shifts@[i
                    - 1]@,
                one@ == 1,
                shifts.len() >= 1 ==> self@ == q@ * (2 * shifts@.last()@) + r@ && r@ < 2
                    * shifts@.last()@,
                shifts.len() == 0 ==> self@ == q@ * rhs@ + r@ && r@ < rhs@,
            decreases shifts.len(),
        {
            let ghost q0 = q@;
            let ghost r0 = r@;
            let ghost len0 = shifts@.len();
            let d = shifts.pop().unwrap();
            proof {
                broadcast use lemma_u256_bound;

                // The quotient stays small enough to double.
                assert(2 * q0 + 1 < u256_mod()) by (nonlinear_arith)
                    requires
                        q0 * (2 * d@) + r0 == self@,
                        d@ >= 1,
                        q0 >= 0,
                        r0 >= 0,
                        self@ < u256_mod(),
                ;
            }
            let (q2, qc) = q.shl1();
            let sub = !r.lt(d);
            if sub {
                let (rs, bw) = r.sub_borrow(d);
                r = rs;
                q = q2.wrapping_add(one);
                proof {
                    lemma_small_mod((2 * q0 + 1) as nat, u256_mod());
                }
            } else {
                q = q2;
            }
            proof {
                broadcast use lemma_u256_bound;

                let bit: nat = if sub {
                    1
                } else {
                    0
                };
                assert(q@ == 2 * q0 + bit);
                assert(r@ == r0 - bit * d@);
                assert(self@ == q@ * d@ + r@ && r@ < d@) by (nonlinear_arith)
                    requires
                        q0 * (2 * d@) + r0 == self@,
                        r0 < 2 * d@,
                        q@ == 2 * q0 + bit,
                        r@ == r0 - bit * d@,
                        bit == (if r0 >= d@ {
                            1nat
                        } else {
                            0nat
                        }),
                        d@ >= 1,
                ;
                if shifts.len() > 0 {
                    assert(d@ == 2 * shifts@.last()@);
                } else {
                    assert(d@ == rhs@);
                }
            }
        }
        proof {
            lemma_fundamental_div_mod_converse(self@ as int, rhs@ as int, q@ as int, r@ as int);
        }
        q
    }

    /// Exponentiation modulo 2^256 by repeated multiplication.
    pub fn pow(self, e: u64) -> (r: U256)
        ensures
            r@ == pow(self@ as int, e as nat) % (u256_mod() as int),
    {
        let mut acc = U256::from_u64(1);
        let mut i: u64 = 0;
        proof {
            vstd::arithmetic::power::lemma_pow0(self@ as int);
            lemma_small_mod(1, u256_mod());
        }
        while i < e
            invariant
                i <= e,
                acc@ == pow(self@ as int, i as nat) % (u256_mod() as int),
            decreases e - i,
        {
            let ghost acc0 = acc@;
            acc = acc.wrapping_mul(self);
            i = i + 1;
            proof {
                assert(pow(self@ as int, (i - 1) as nat) >= 0) by {
                    if self@ > 0 {
                        vstd::arithmetic::power::lemma_pow_positive(self@ as int, (i - 1) as nat);
                    } else if i == 1 {
                        vstd::arithmetic::power::lemma_pow0(self@ as int);
                    } else {
                        vstd::arithmetic::power::lemma0_pow((i - 1) as nat);
                    }
                }
                lemma_mul_mod_noop_left(
                    pow(self@ as int, (i - 1) as nat),
                    self@ as int,
                    u256_mod() as int,
                );
                assert(pow(self@ as int, i as nat) == pow(self@ as int, (i - 1) as nat) * (
                self@ as int)) by {
                    vstd::arithmetic::power::lemma_pow1(self@ as int);
                    vstd::arithmetic::power::lemma_pow_adds(self@ as int, (i - 1) as nat, 1);
                }
            }
        }
        acc
    }
}

} // verus!
