//! Bit-serial arithmetic: addition by carry propagation, multiplication by
//! shift-and-add, and the Gray code.

use vstd::arithmetic::div_mod::{
    lemma_add_mod_noop, lemma_add_mod_noop_right, lemma_fundamental_div_mod, lemma_mod_breakdown,
    lemma_mod_mod, lemma_mod_multiples_basic, lemma_small_mod,
};
use vstd::arithmetic::power2::{
    lemma2_to64, lemma_pow2_adds, lemma_pow2_pos, lemma_pow2_strictly_increases,
    lemma_pow2_unfold, pow2,
};
use vstd::bits::{lemma_u32_pow2_no_overflow, lemma_u32_shl_is_mul, lemma_u32_shr_is_div};
use vstd::prelude::*;

verus! {

/// The modulus of 32-bit arithmetic.
pub open spec fn word() -> int {
    0x1_0000_0000
}

/// A positive number divisible by `p` is at least `p`.
proof fn lemma_positive_multiple_at_least(x: int, p: int)
    requires
        x > 0,
        p > 0,
        x % p == 0,
    ensures
        x >= p,
{
    lemma_fundamental_div_mod(x, p);
    let q = x / p;
    if q <= 0 {
        assert(p * q <= 0) by (nonlinear_arith)
            requires
                p > 0,
                q <= 0,
        ;
        assert(false);
    }
    assert(p * q >= p) by (nonlinear_arith)
        requires
            p > 0,
            q >= 1,
    ;
}

/// Adds two words without `+`: exclusive or is a carryless sum, and the
/// carries are reinserted one shift at a time.  The result is the sum
/// modulo the word size, as with `wrapping_add`.
pub fn adder(a: u32, b: u32) -> (r: u32)
    ensures
        r as int == (a as int + b as int) % word(),
{
    let mut carry = a & b;
    let mut res = a ^ b;
    let ghost mut i: nat = 0;
    proof {
        assert(((a ^ b) as u64) + 2 * ((a & b) as u64) == (a as u64) + (b as u64))
            by (bit_vector);
        assert((carry as int) % (pow2(0) as int) == 0) by {
            lemma2_to64();
        }
    }
    while carry != 0
        invariant
            (res as int + 2 * carry as int) % word() == (a as int + b as int) % word(),
            (carry as int) % (pow2(i) as int) == 0,
            i <= 32,
        decreases 32 - i,
    {
        let c = carry << 1u32;
        let new_carry = res & c;
        let new_res = res ^ c;
        proof {
            lemma2_to64();
            lemma_pow2_pos(i);
            lemma_pow2_pos((i + 1) as nat);
            // The loop guard bounds the ghost round counter.
            lemma_positive_multiple_at_least(carry as int, pow2(i) as int);
            assert(i < 32) by {
                if i >= 32 {
                    lemma2_to64();
                    if i > 32 {
                        lemma_pow2_strictly_increases(32, i);
                    }
                    assert(false);
                }
            }
            // The shifted carry is twice the carry, modulo the word.
            assert((c as u64) == (2 * (carry as u64)) % 0x1_0000_0000) by (bit_vector)
                requires
                    c == carry << 1u32,
            ;
            assert(c as int == (2 * carry as int) % word());
            // The carryless sum and the new carries split the old total.
            assert(((res ^ c) as u64) + 2 * ((res & c) as u64) == (res as u64) + (c as u64))
                by (bit_vector);
            // Modular bookkeeping: the running total is unchanged.
            lemma_small_mod(res as nat, word() as nat);
            lemma_add_mod_noop(res as int, 2 * carry as int, word());
            assert((res as int + c as int) % word() == (res as int + 2 * carry as int) % word());
            assert((new_res as int + 2 * new_carry as int) % word() == (a as int + b as int)
                % word());
            // Divisibility: each round clears one more low bit of the carry.
            let ghost p = pow2(i) as int;
            let ghost pp = pow2((i + 1) as nat) as int;
            let ghost q = (carry as int) / p;
            lemma_pow2_unfold((i + 1) as nat);
            lemma_fundamental_div_mod(carry as int, p);
            assert(2 * carry as int == pp * q) by (nonlinear_arith)
                requires
                    carry as int == p * q,
                    pp == 2 * p,
            ;
            lemma_mod_multiples_basic(q, pp);
            assert((2 * carry as int) % pp == 0);
            lemma_pow2_adds((i + 1) as nat, (31 - i) as nat);
            lemma_pow2_pos((31 - i) as nat);
            lemma_mod_mod(2 * carry as int, pp, pow2((31 - i) as nat) as int);
            assert((c as int) % pp == 0);
            if c == 0 {
                assert(new_carry == res & 0u32);
                assert(res & 0u32 == 0u32) by (bit_vector);
                lemma_small_mod(0, pp as nat);
            } else {
                assert(i + 1 < 32) by {
                    if i + 1 >= 32 {
                        lemma2_to64();
                        if i + 1 > 32 {
                            lemma_pow2_strictly_increases(32, (i + 1) as nat);
                        }
                        lemma_positive_multiple_at_least(c as int, pp);
                        assert(false);
                    }
                }
                let ghost j = (i + 1) as u32;
                lemma_u32_pow2_no_overflow(j as nat);
                lemma_u32_shl_is_mul(1u32, j);
                assert((1u32 << j) as int == pp);
                assert((c % (1u32 << j) == 0) ==> ((res & c) % (1u32 << j) == 0))
                    by (bit_vector)
                    requires
                        j < 32u32,
                ;
                assert((new_carry as int) % pp == 0);
            }
            i = i + 1;
        }
        carry = new_carry;
        res = new_res;
    }
    proof {
        lemma_small_mod(res as nat, word() as nat);
    }
    res
}

/// Multiplies two words without `*`: for each set bit of `b`, the
/// correspondingly shifted `a` is added in.  The result is the product
/// modulo the word size, as with `wrapping_mul`.
pub fn multiplier(a: u32, b: u32) -> (r: u32)
    ensures
        r as int == (a as int * b as int) % word(),
{
    let mut res: u32 = 0;
    proof {
        lemma2_to64();
        lemma_mod_multiples_basic(b as int, 1int);
        assert(((a as int) * ((b as int) % (pow2(0) as int))) % word() == 0) by {
            assert((b as int) % 1int == 0);
        }
    }
    for i in 0..32u32
        invariant
            res as int == ((a as int) * ((b as int) % (pow2(i as nat) as int))) % word(),
    {
        let bit = b & (1u32 << i);
        let ghost p = pow2(i as nat) as int;
        let ghost pp = pow2((i + 1) as nat) as int;
        proof {
            lemma_pow2_pos(i as nat);
            lemma_pow2_pos((i + 1) as nat);
            lemma_pow2_unfold((i + 1) as nat);
            lemma_u32_pow2_no_overflow(i as nat);
            lemma_u32_shl_is_mul(1u32, i);
            assert((1u32 << i) as int == p);
            // The tested bit is the next binary digit of `b`.
            lemma_u32_shr_is_div(b, i);
            assert(((b & (1u32 << i)) != 0) == ((b >> i) % 2 == 1)) by (bit_vector)
                requires
                    i < 32u32,
            ;
            // Splitting off that digit relates the two partial remainders.
            lemma_mod_breakdown(b as int, p, 2);
        }
        if bit != 0 {
            let shifted = a << i;
            proof {
                assert(((b as int) / p) % 2 == 1);
                assert(p * (((b as int) / p) % 2) == p) by (nonlinear_arith)
                    requires
                        ((b as int) / p) % 2 == 1,
                ;
                assert((b as int) % pp == p + (b as int) % p);
                let au = a as u64;
                let iu = i as u64;
                assert(((a << i) as u64) == (au << iu) & 0xFFFF_FFFFu64) by (bit_vector)
                    requires
                        iu < 32u64,
                        iu == i as u64,
                        au == a as u64,
                ;
                assert((au << iu) & 0xFFFF_FFFFu64 == (au << iu) % 0x1_0000_0000) by (bit_vector);
                vstd::bits::lemma_u64_pow2_no_overflow(i as nat);
                assert(p <= 0x8000_0000int) by {
                    lemma2_to64();
                    if (i as nat) < 31 {
                        lemma_pow2_strictly_increases(i as nat, 31);
                    }
                }
                assert((a as int) * p <= 0xFFFF_FFFFint * 0x8000_0000int) by (nonlinear_arith)
                    requires
                        0 <= a as int <= 0xFFFF_FFFFint,
                        0 <= p <= 0x8000_0000int,
                ;
                vstd::bits::lemma_u64_shl_is_mul(a as u64, i as u64);
                assert(shifted as int == ((a as int) * p) % word());
            }
            let prev = res;
            res = adder(res, shifted);
            proof {
                lemma_add_mod_noop_right(prev as int, (a as int) * p, word());
                assert(res as int == (prev as int + (a as int) * p) % word());
                lemma_add_mod_noop((a as int) * ((b as int) % p), (a as int) * p, word());
                assert(res as int == ((a as int) * ((b as int) % p) + (a as int) * p) % word());
                assert((a as int) * ((b as int) % p) + (a as int) * p == (a as int) * ((b as int)
                    % p + p)) by (nonlinear_arith);
                assert(res as int == ((a as int) * ((b as int) % pp)) % word());
            }
        } else {
            proof {
                assert(((b as int) / p) % 2 == 0);
                assert(p * (((b as int) / p) % 2) == 0) by (nonlinear_arith)
                    requires
                        ((b as int) / p) % 2 == 0,
                ;
                assert((b as int) % pp == (b as int) % p);
            }
        }
    }
    proof {
        assert(pow2(32) as int == word()) by {
            lemma2_to64();
        }
        lemma_small_mod(b as nat, pow2(32));
    }
    res
}

/// The Gray code of `n`: `n` exclusive-ored with its half, so that
/// consecutive codes differ in exactly one bit.
pub fn gray_code(n: u32) -> (r: u32)
    ensures
        r == n ^ (n / 2),
{
    proof {
        lemma_u32_shr_is_div(n, 1u32);
        assert(pow2(1) == 2) by {
            lemma2_to64();
        }
    }
    n ^ (n >> 1u32)
}

} // verus!
