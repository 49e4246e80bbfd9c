//! Compression heuristic: a message is compressed when its normalized
//! Shannon entropy is at most one half.
//!
//! With byte counts `c_b` over a buffer of length `n`, the entropy is
//! `H = -sum(c_b/n * log2(c_b/n))` and the rule is `H <= log2(n) / 2`,
//! which rearranges (no subtraction, no reals) to
//! `n * log2(n) <= 2 * sum(c_b * log2(c_b))`.
//! The logarithm is computed in binary fixed point with
//! [`FRAC_BITS`] fractional bits: the integer part is the floor
//! logarithm, and each fraction bit comes from one squaring of the
//! normalized mantissa.
//!
//! The fixed-point comparison is the rule this library decides, and the
//! contracts pin it exactly.  Against the real-valued rule it is a
//! truncation: every computed logarithm undershoots the exact one by
//! less than 2^-15, so the two rules can disagree only when
//! `|2*sum(c_b*log2(c_b)) - n*log2(n)| < n*2^-14`, that is, when the
//! normalized entropy lies within `2^-14 / log2(n)` of one half.
//! Outside that band the decision equals the exact rule's.

use vstd::prelude::*;
use vstd::arithmetic::div_mod::lemma_div_basics;
use vstd::arithmetic::div_mod::lemma_div_by_multiple;
use vstd::arithmetic::div_mod::lemma_div_denominator;
use vstd::arithmetic::div_mod::lemma_div_is_ordered;
use vstd::arithmetic::div_mod::lemma_fundamental_div_mod;
use vstd::arithmetic::div_mod::lemma_multiply_divide_lt;
use vstd::arithmetic::power2::pow2;
use vstd::arithmetic::power2::lemma_pow2_unfold;
use vstd::arithmetic::power2::lemma_pow2_pos;

verus! {

/// Number of fraction bits in the fixed-point logarithm.
pub const FRAC_BITS: u32 = 16;

/// Messages at most this long are never compressed.
pub const MIN_COMPRESSIBLE_LEN: usize = 20;

/// Floor of the binary logarithm.
pub open spec fn floor_log2(x: nat) -> nat
    decreases x,
{
    if x < 2 {
        0
    } else {
        1 + floor_log2(x / 2)
    }
}

/// One squaring step per fraction bit: `z` is the mantissa in `[2^32,
/// 2^33)` scaled by `2^32`; squaring doubles its logarithm, and a result
/// at or above `2^33` yields a one bit.
pub open spec fn log2_frac(z: nat, k: nat) -> nat
    decreases k,
{
    if k == 0 {
        0
    } else {
        let z2 = (z * z) / 0x100000000;
        if z2 >= 0x200000000 {
            pow2((k - 1) as nat) + log2_frac(z2 / 2, (k - 1) as nat)
        } else {
            log2_frac(z2, (k - 1) as nat)
        }
    }
}

/// The fixed-point binary logarithm: integer part times `2^FRAC_BITS`
/// plus the fraction bits.
pub open spec fn log2_fix(x: nat) -> nat
    recommends
        x >= 1,
{
    floor_log2(x) * 0x10000 + log2_frac((x * 0x100000000) / pow2(floor_log2(x)), 16)
}

/// Number of occurrences of `b` in `s`.
pub open spec fn count_byte(s: Seq<u8>, b: u8) -> nat
    decreases s.len(),
{
    if s.len() == 0 {
        0
    } else {
        count_byte(s.drop_last(), b) + if s.last() == b {
            1nat
        } else {
            0nat
        }
    }
}

pub proof fn lemma_count_byte_le(s: Seq<u8>, b: u8)
    ensures
        count_byte(s, b) <= s.len(),
    decreases s.len(),
{
    if s.len() > 0 {
        lemma_count_byte_le(s.drop_last(), b);
    }
}

/// The entropy side of the comparison: `sum(c_b * log2fix(c_b))` over the
/// byte values below `k`, with zero terms for absent bytes.
pub open spec fn weighted_log_sum(s: Seq<u8>, k: int) -> nat
    decreases k,
{
    if k <= 0 {
        0
    } else {
        weighted_log_sum(s, k - 1) + {
            let c = count_byte(s, (k - 1) as u8);
            if c == 0 {
                0nat
            } else {
                c * log2_fix(c)
            }
        }
    }
}

/// The compression rule over a byte sequence.
pub open spec fn spec_should_compress(s: Seq<u8>) -> bool {
    &&& s.len() > MIN_COMPRESSIBLE_LEN
    &&& s.len() * log2_fix(s.len()) <= 2 * weighted_log_sum(s, 256)
}

// ---------------------------------------------------------------------
// Executable fixed-point logarithm
// ---------------------------------------------------------------------
/// Fixed-point `log2` with [`FRAC_BITS`] fraction bits.
pub fn log2_fixed(x: u64) -> (r: u64)
    requires
        x >= 1,
    ensures
        r == log2_fix(x as nat),
{
    let mut y: u64 = x;
    let mut ip: u32 = 0;
    let mut p: u64 = 1;
    proof {
        vstd::arithmetic::power2::lemma2_to64();
        lemma_div_basics(x as int);
    }
    while y >= 2
        invariant
            x >= 1,
            1 <= y,
            ip <= 63,
            p == pow2(ip as nat),
            y == x as nat / pow2(ip as nat),
            floor_log2(x as nat) == ip + floor_log2(y as nat),
            p <= x,
        decreases y,
    {
        proof {
            lemma_pow2_pos(ip as nat);
            lemma_pow2_unfold((ip + 1) as nat);
            lemma_div_denominator(x as int, p as int, 2);
            // y >= 2 means x >= 2 * p, so the doubled power still fits
            lemma_fundamental_div_mod(x as int, p as int);
            assert(x as int >= (p as int) * (y as int));
            assert((p as int) * (y as int) >= (p as int) * 2) by (nonlinear_arith)
                requires
                    y as int >= 2,
                    p as int >= 1,
            ;
            assert(pow2((ip + 1) as nat) <= x as nat);
            if ip + 1 > 63 {
                if ip + 1 > 64 {
                    vstd::arithmetic::power2::lemma_pow2_strictly_increases(64, (ip + 1) as nat);
                }
                vstd::arithmetic::power2::lemma2_to64_rest();
                assert(pow2(64) == 0x10000000000000000);
                assert(false);
            }
        }
        y = y / 2;
        ip = ip + 1;
        p = p * 2;
    }
    assert(y == 1);
    assert(floor_log2(x as nat) == ip);
    proof {
        lemma_pow2_pos(ip as nat);
        // the normalized mantissa z = x * 2^32 / 2^ip lies in [2^32, 2^33)
        lemma_fundamental_div_mod(x as int, p as int);
        assert(x as int >= p as int);
        assert((x as int) < 2 * (p as int)) by {
            if x as int >= 2 * (p as int) {
                lemma_div_by_multiple(2, p as int);
                lemma_div_is_ordered(2 * (p as int), x as int, p as int);
                assert(y as int >= 2);
            }
        }
        assert((x as int) * 0x100000000 >= (p as int) * 0x100000000) by (nonlinear_arith)
            requires
                x as int >= p as int,
            ;
        lemma_div_by_multiple(0x100000000, p as int);
        lemma_div_is_ordered((p as int) * 0x100000000, (x as int) * 0x100000000, p as int);
        assert((x as int) * 0x100000000 < (p as int) * 0x200000000) by (nonlinear_arith)
            requires
                (x as int) < 2 * (p as int),
            ;
        lemma_multiply_divide_lt((x as int) * 0x100000000, p as int, 0x200000000);
    }
    let z0: u128 = (x as u128) * 0x100000000 / (p as u128);
    let mut z: u128 = z0;
    let mut frac: u64 = 0;
    let mut left: u32 = 16;
    proof {
        vstd::arithmetic::power2::lemma2_to64();
    }
    while left > 0
        invariant
            0x100000000 <= z < 0x200000000,
            left <= 16,
            frac < pow2((16 - left) as nat),
            log2_frac(z0 as nat, 16) == frac * pow2(left as nat) + log2_frac(z as nat, left as nat),
        decreases left,
    {
        proof {
            assert((z as int) * (z as int) >= 0x100000000 * 0x100000000 && (z as int) * (z as int)
                < 0x200000000 * 0x200000000) by (nonlinear_arith)
                requires
                    0x100000000 <= (z as int) && (z as int) < 0x200000000,
            ;
            lemma_multiply_divide_lt((z as int) * (z as int), 0x100000000, 0x400000000);
            lemma_div_by_multiple(0x100000000, 0x100000000);
            lemma_div_is_ordered(
                (0x100000000 as int) * (0x100000000 as int),
                (z as int) * (z as int),
                0x100000000,
            );
            lemma_pow2_unfold(left as nat);
            lemma_pow2_unfold((16 - (left - 1)) as nat);
        }
        let z2: u128 = z * z / 0x100000000;
        let bit: u64 = if z2 >= 0x200000000 {
            1
        } else {
            0
        };
        proof {
            let f = if z2 >= 0x200000000 {
                log2_frac((z2 / 2) as nat, (left - 1) as nat)
            } else {
                log2_frac(z2 as nat, (left - 1) as nat)
            };
            assert(log2_frac(z as nat, left as nat) == (bit as nat) * pow2((left - 1) as nat) + f);
            assert((frac as nat) * pow2(left as nat) == (2 * frac) as nat * pow2((left - 1) as nat))
                by (nonlinear_arith)
                requires
                    pow2(left as nat) == 2 * pow2((left - 1) as nat),
            ;
            assert(((2 * frac) as nat + bit as nat) * pow2((left - 1) as nat) == (2 * frac) as nat
                * pow2((left - 1) as nat) + (bit as nat) * pow2((left - 1) as nat))
                by (nonlinear_arith);
        }
        proof {
            vstd::arithmetic::power2::lemma2_to64();
            if 16 - left < 15 {
                vstd::arithmetic::power2::lemma_pow2_strictly_increases((16 - left) as nat, 15);
            }
            assert(frac < 0x8000);
        }
        z = if z2 >= 0x200000000 {
            z2 / 2
        } else {
            z2
        };
        frac = 2 * frac + bit;
        left = left - 1;
    }
    proof {
        assert(pow2(0) == 1) by {
            vstd::arithmetic::power2::lemma2_to64();
        }
        assert(pow2(16) == 0x10000) by {
            vstd::arithmetic::power2::lemma2_to64();
        }
        assert(left == 0);
        assert(log2_frac(z as nat, 0) == 0);
        assert(log2_frac(z0 as nat, 16) == frac * pow2(0) + log2_frac(z as nat, 0));
        assert(frac * pow2(0) == frac * 1);
        assert(log2_frac(z0 as nat, 16) == frac);
        assert(z0 as nat == (x as nat * 0x100000000) / pow2(floor_log2(x as nat)));
        assert((ip as nat) * 0x10000 + frac as nat == log2_fix(x as nat));
        assert(ip <= 63) by {
            if ip >= 64 {
                assert(pow2(64) <= pow2(ip as nat)) by {
                    vstd::arithmetic::power2::lemma_pow2_adds(64, (ip - 64) as nat);
                    vstd::arithmetic::power2::lemma2_to64();
                    lemma_pow2_pos((ip - 64) as nat);
                    assert(pow2(ip as nat) == pow2(64) * pow2((ip - 64) as nat));
                    assert(pow2(64) * pow2((ip - 64) as nat) >= pow2(64) * 1) by (nonlinear_arith)
                        requires
                            pow2((ip - 64) as nat) >= 1,
                            pow2(64) >= 0,
                    ;
                }
                vstd::arithmetic::power2::lemma2_to64_rest();
                assert(pow2(64) == 0x10000000000000000);
            }
        }
    }
    (ip as u64) * 0x10000 + frac
}

// ---------------------------------------------------------------------
// The compression decision
// ---------------------------------------------------------------------
/// Whether a message's bytes should be LZ4-compressed before
/// segmentation: yes when the buffer is longer than
/// [`MIN_COMPRESSIBLE_LEN`] bytes and its normalized Shannon entropy is
/// at most one half.
pub fn should_message_be_compressed(bytes: &[u8]) -> (r: bool)
    ensures
        r == spec_should_compress(bytes@),
{
    let n = bytes.len();
    if n <= MIN_COMPRESSIBLE_LEN {
        return false;
    }
    let mut freq: Vec<u64> = Vec::new();
    let mut t: usize = 0;
    while t < 256
        invariant
            t <= 256,
            freq@.len() == t,
            forall|b: int| 0 <= b < t ==> freq@[b] == 0,
        decreases 256 - t,
    {
        freq.push(0);
        t = t + 1;
    }
    proof {
        assert forall|b: u8| true implies count_byte(bytes@.take(0), b) == 0 by {
            assert(bytes@.take(0).len() == 0);
        }
    }
    let mut i: usize = 0;
    while i < n
        invariant
            i <= n,
            n == bytes@.len(),
            freq@.len() == 256,
            forall|b: u8| #[trigger] count_byte(bytes@.take(i as int), b) == freq@[b as int],
        decreases n - i,
    {
        let b = bytes[i];
        proof {
            lemma_count_byte_le(bytes@.take(i as int), b);
            assert(bytes@.take(i as int).len() == i);
            assert forall|c: u8| true implies count_byte(bytes@.take(i + 1), c) == count_byte(
                bytes@.take(i as int),
                c,
            ) + if c == b {
                1nat
            } else {
                0nat
            } by {
                assert(bytes@.take(i + 1).drop_last() =~= bytes@.take(i as int));
                assert(bytes@.take(i + 1).last() == b);
            }
        }
        let c = freq[b as usize];
        freq[b as usize] = c + 1;
        proof {
            assert forall|cb: u8| true implies count_byte(bytes@.take(i + 1), cb) == freq@[cb as int] by {
                assert(count_byte(bytes@.take(i + 1), cb) == count_byte(bytes@.take(i as int), cb)
                    + if cb == b {
                    1nat
                } else {
                    0nat
                });
            }
        }
        i = i + 1;
    }
    proof {
        assert(bytes@.take(n as int) =~= bytes@);
    }
    let ghost s = bytes@;
    let mut sum: u128 = 0;
    let mut k: usize = 0;
    while k < 256
        invariant
            k <= 256,
            freq@.len() == 256,
            n == bytes@.len(),
            s == bytes@,
            forall|b: u8| #[trigger] count_byte(s, b) == freq@[b as int],
            sum == weighted_log_sum(s, k as int),
            sum <= (k as nat) * ((n as nat) * 0x400000),
        decreases 256 - k,
    {
        let c = freq[k];
        proof {
            lemma_count_byte_le(s, k as u8);
            assert(count_byte(s, k as u8) == freq@[k as int]);
        }
        if c > 0 {
            let l = log2_fixed(c);
            proof {
                lemma_log2_fix_bound(c as nat);
                assert((c as nat) * (l as nat) <= (n as nat) * 0x400000) by (nonlinear_arith)
                    requires
                        c as nat <= n as nat,
                        l as nat <= 0x400000,
                        c as nat >= 0,
                        n as nat >= 0,
                ;
                assert((k as nat) * ((n as nat) * 0x400000) + (n as nat) * 0x400000 == ((
                k + 1) as nat) * ((n as nat) * 0x400000)) by (nonlinear_arith);
                assert(((k + 1) as nat) * ((n as nat) * 0x400000) <= 256 * ((n as nat) * 0x400000))
                    by (nonlinear_arith)
                    requires
                        k < 256,
                        n as nat >= 0,
                ;
                assert(256 * ((n as nat) * 0x400000) < 0x100000000000000000000000000000000)
                    by (nonlinear_arith)
                    requires
                        (n as nat) < 0x10000000000000000,
                ;
            }
            sum = sum + (c as u128) * (l as u128);
        } else {
            proof {
                assert((k as nat) * ((n as nat) * 0x400000) <= ((k + 1) as nat) * ((n as nat)
                    * 0x400000)) by (nonlinear_arith)
                    requires
                        n as nat >= 0,
                ;
            }
        }
        k = k + 1;
    }
    let ln = log2_fixed(n as u64);
    proof {
        lemma_log2_fix_bound(n as nat);
        assert((n as nat) * (ln as nat) <= (n as nat) * 0x400000) by (nonlinear_arith)
            requires
                ln as nat <= 0x400000,
                n as nat >= 0,
        ;
        assert((n as nat) * 0x400000 < 0x100000000000000000000000000000000) by (nonlinear_arith)
            requires
                (n as nat) < 0x10000000000000000,
        ;
        assert(256 * ((n as nat) * 0x400000) < 0x80000000000000000000000000000000)
            by (nonlinear_arith)
            requires
                (n as nat) < 0x10000000000000000,
        ;
        assert((256 as nat) * ((n as nat) * 0x400000) >= (k as nat) * ((n as nat) * 0x400000))
            by (nonlinear_arith)
            requires
                k <= 256,
                n as nat >= 0,
        ;
    }
    (n as u128) * (ln as u128) <= 2 * sum
}

/// The fixed-point logarithm of a 64-bit value fits in 22 bits.
pub proof fn lemma_log2_fix_bound(x: nat)
    requires
        1 <= x < 0x10000000000000000,
    ensures
        log2_fix(x) <= 0x400000,
{
    vstd::arithmetic::power2::lemma2_to64();
    vstd::arithmetic::power2::lemma2_to64_rest();
    assert(x < pow2(64));
    lemma_floor_log2_bound(x, 64);
    lemma_log2_frac_bound((x * 0x100000000) / pow2(floor_log2(x)), 16);
    assert(floor_log2(x) * 0x10000 <= 63 * 0x10000) by (nonlinear_arith)
        requires
            floor_log2(x) <= 63,
    ;
    assert(pow2(16) == 0x10000);
}

pub proof fn lemma_floor_log2_bound(x: nat, k: nat)
    requires
        x < pow2(k),
        k >= 1,
    ensures
        floor_log2(x) <= k - 1,
    decreases x,
{
    if x < 2 {
    } else {
        lemma_pow2_unfold(k);
        assert(x / 2 < pow2((k - 1) as nat));
        if k == 1 {
            assert(pow2(0) == 1) by {
                vstd::arithmetic::power2::lemma2_to64();
            }
        } else {
            lemma_floor_log2_bound(x / 2, (k - 1) as nat);
        }
    }
}

pub proof fn lemma_log2_frac_bound(z: nat, k: nat)
    ensures
        log2_frac(z, k) < pow2(k),
    decreases k,
{
    if k == 0 {
        assert(pow2(0) == 1) by {
            vstd::arithmetic::power2::lemma2_to64();
        }
    } else {
        let z2 = (z * z) / 0x100000000;
        lemma_pow2_unfold(k);
        if z2 >= 0x200000000 {
            lemma_log2_frac_bound(z2 / 2, (k - 1) as nat);
        } else {
            lemma_log2_frac_bound(z2, (k - 1) as nat);
        }
    }
}

} // verus!
