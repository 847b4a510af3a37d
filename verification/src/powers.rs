//! Powers of two used as search steps.

use vstd::prelude::*;
use vstd::arithmetic::power2::*;

verus! {

/// Number of set bits in the binary representation of `n`.
pub open spec fn set_bit_count(n: nat) -> nat
    decreases n,
{
    if n == 0 {
        0
    } else {
        n % 2 + set_bit_count(n / 2)
    }
}

proof fn lemma_set_bit_count_le(n: nat)
    ensures
        set_bit_count(n) <= n,
    decreases n,
{
    if n > 0 {
        lemma_set_bit_count_le(n / 2);
    }
}

proof fn lemma_set_bit_count_zero(n: nat)
    ensures
        set_bit_count(n) == 0 <==> n == 0,
    decreases n,
{
    if n > 0 {
        lemma_set_bit_count_zero(n / 2);
    }
}

/// A number has exactly one set bit if and only if it is a power of two.
pub proof fn lemma_single_bit_iff_pow2(n: nat)
    ensures
        set_bit_count(n) == 1 <==> is_pow2(n as int),
    decreases n,
{
    reveal(is_pow2);
    if n > 0 {
        lemma_single_bit_iff_pow2(n / 2);
        lemma_set_bit_count_zero(n / 2);
    }
}

/// Tells whether `n` has exactly one bit set, i.e. is a power of two.
pub fn is_power_of_2(n: usize) -> (r: bool)
    ensures
        r == (set_bit_count(n as nat) == 1),
        r == is_pow2(n as int),
{
    proof {
        lemma_single_bit_iff_pow2(n as nat);
        lemma_set_bit_count_le(n as nat);
    }
    let mut m = n;
    let mut count: usize = 0;
    while m > 0
        invariant
            count + set_bit_count(m as nat) == set_bit_count(n as nat),
            set_bit_count(n as nat) <= n,
        decreases m,
    {
        count = count + m % 2;
        m = m / 2;
    }
    count == 1
}

/// Exponent `k` of a power of two `value == 2^k`.
fn exact_log2(value: u32) -> (k: u32)
    requires
        is_pow2(value as int),
    ensures
        k < 32,
        pow2(k as nat) == value,
{
    reveal(is_pow2);
    let mut m = value;
    let mut k: u32 = 0;
    proof {
        lemma2_to64();
    }
    while m > 1
        invariant
            0 < m <= value,
            m * pow2(k as nat) == value,
            is_pow2(m as int),
            k < 32,
            value <= u32::MAX,
        decreases m,
    {
        proof {
            reveal(is_pow2);
            lemma2_to64();
            lemma_pow2_unfold((k + 1) as nat);
            assert(m % 2 == 0);
            assert((m / 2) * pow2((k + 1) as nat) == (m / 2) * (2 * pow2(k as nat)));
            vstd::arithmetic::mul::lemma_mul_is_associative((m / 2) as int, 2, pow2(k as nat) as int);
            assert((m / 2) * 2 == m);
            if k + 1 >= 32 {
                lemma_pow2_strictly_increases(31, 32);
                if k + 1 > 32 {
                    lemma_pow2_strictly_increases(32, (k + 1) as nat);
                }
                vstd::arithmetic::mul::lemma_mul_increases((m / 2) as int, pow2((k + 1) as nat) as int);
            }
        }
        m = m / 2;
        k = k + 1;
    }
    k
}

/// A power of two with a signed exponent.
#[derive(Copy, Clone, PartialEq, Eq, PartialOrd, Ord)]
pub struct IntPowerOf2(pub i32);

impl IntPowerOf2 {
    /// The power of two `2^power`.
    pub fn new(power: i32) -> (r: IntPowerOf2)
        ensures
            r.0 == power,
    {
        IntPowerOf2(power)
    }

    /// The power of two equal to `value`, which must be a power of two.
    pub fn from_int(value: u32) -> (r: IntPowerOf2)
        requires
            set_bit_count(value as nat) == 1,
        ensures
            0 <= r.0 < 32,
            pow2(r.0 as nat) == value,
    {
        proof {
            lemma_single_bit_iff_pow2(value as nat);
        }
        let k = exact_log2(value);
        IntPowerOf2(k as i32)
    }

    /// Half of this power of two.
    pub fn half(&self) -> (r: IntPowerOf2)
        requires
            self.0 > i32::MIN,
        ensures
            r.0 == self.0 - 1,
    {
        IntPowerOf2(self.0 - 1)
    }
}

/// A power of two with a non-negative exponent.
#[derive(Copy, Clone)]
pub struct NonNegPowerOf2(pub u32);

impl NonNegPowerOf2 {
    /// The power of two `2^power`.
    pub fn new(power: u32) -> (r: NonNegPowerOf2)
        ensures
            r.0 == power,
    {
        NonNegPowerOf2(power)
    }

    /// The power of two equal to `value`, which must be a power of two.
    pub fn from_int(value: u32) -> (r: NonNegPowerOf2)
        requires
            set_bit_count(value as nat) == 1,
        ensures
            r.0 < 32,
            pow2(r.0 as nat) == value,
    {
        proof {
            lemma_single_bit_iff_pow2(value as nat);
        }
        NonNegPowerOf2(exact_log2(value))
    }

    /// The value `2^self.0`.
    pub fn as_int(&self) -> (r: u32)
        requires
            self.0 < 32,
        ensures
            r == pow2(self.0 as nat),
    {
        proof {
            vstd::bits::lemma_u32_pow2_no_overflow(self.0 as nat);
            lemma2_to64();
            vstd::bits::lemma_u32_shl_is_mul(1, self.0);
        }
        1u32 << self.0
    }

    /// Half of this power of two; `2^0` stays `2^0`.
    pub fn half(&self) -> (r: NonNegPowerOf2)
        ensures
            r.0 == if self.0 == 0 { 0 } else { self.0 - 1 },
    {
        if self.0 == 0 {
            *self
        } else {
            NonNegPowerOf2(self.0 - 1)
        }
    }
}

} // verus!
