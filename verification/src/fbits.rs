//! Round-to-nearest, ties-to-even encoding of a positive rational `n / d`
//! as an IEEE-754 single-precision bit pattern, computed with integer
//! arithmetic only.
//!
//! The scan record carries its real-valued fields as such bit patterns, so
//! the whole unit-conversion pipeline can be verified without any
//! floating-point operation.  The binade search is expressed by the spec
//! functions `norm_up` / `norm_down`, and `ratio_bits` is the mathematical
//! definition that the executable `round_ratio` is proved to implement.

use vstd::prelude::*;
use vstd::arithmetic::power2::{
    lemma2_to64, lemma2_to64_rest, lemma_pow2_adds, lemma_pow2_pos, lemma_pow2_strictly_increases,
    pow2,
};

verus! {

/// Double the numerator (lowering the binary exponent) until `n / d` is at
/// least `2^23`.  Returns the scaled numerator and the exponent.
pub open spec fn norm_up(n: nat, d: nat, e: int) -> (nat, int)
    decreases (if 0x800000 * d > n { (0x800000 * d - n) as nat } else { 0nat }),
{
    if n == 0 || d == 0 || n >= 0x800000 * d {
        (n, e)
    } else {
        norm_up(2 * n, d, e - 1)
    }
}

/// Double the denominator (raising the binary exponent) until `n / d` is
/// below `2^24`.  Returns the scaled denominator and the exponent.
pub open spec fn norm_down(n: nat, d: nat, e: int) -> (nat, int)
    decreases (if n >= 0x1000000 * d && d > 0 { (n - 0x1000000 * d + 1) as nat } else { 0nat }),
{
    if d == 0 || n < 0x1000000 * d {
        (d, e)
    } else {
        norm_down(n, 2 * d, e + 1)
    }
}

/// Round the 24-bit significand: `q` is the truncated quotient, `r` the
/// remainder of the division by `d`; round up when the remainder is more
/// than half of `d`, and to the even significand on an exact tie.
pub open spec fn round_sig(q: nat, r: nat, d: nat) -> nat {
    if 2 * r > d || (2 * r == d && q % 2 == 1) {
        q + 1
    } else {
        q
    }
}

/// Assemble the bit pattern from a hidden-bit significand `q` in
/// `[2^23, 2^24)` and a biased exponent `be`.
pub open spec fn pack_bits(q: nat, be: int) -> u32 {
    (be * 0x800000 + (q - 0x800000)) as u32
}

/// The IEEE-754 single-precision bit pattern nearest to `n / d` (ties to
/// even), for positive `n` and `d` whose quotient lies in the normal range.
pub open spec fn ratio_bits(n: nat, d: nat) -> u32 {
    let (n1, e1) = norm_up(n, d, 0);
    let (d2, e2) = norm_down(n1, d, e1);
    let q = round_sig(n1 / d2, n1 % d2, d2);
    if q == 0x1000000 {
        pack_bits(0x800000, e2 + 151)
    } else {
        pack_bits(q, e2 + 150)
    }
}

/// `2^k` as a machine integer, for the denominators of binary scalings.
pub fn pow2_u64(k: u64) -> (r: u64)
    requires
        k <= 63,
    ensures
        r as nat == pow2(k as nat),
        r >= 1,
{
    proof {
        lemma2_to64();
        lemma2_to64_rest();
    }
    let mut i: u64 = 0;
    let mut p: u64 = 1;
    while i < k
        invariant
            i <= k <= 63,
            p as nat == pow2(i as nat),
            p >= 1,
        decreases k - i,
    {
        proof {
            lemma_pow2_adds(i as nat, 1nat);
            lemma2_to64();
            lemma2_to64_rest();
            if i + 1 < 64 {
                lemma_pow2_strictly_increases((i + 1) as nat, 64nat);
            }
        }
        p = p * 2;
        i = i + 1;
    }
    p
}

/// Compute `ratio_bits(n, d)` executably.  The first pair of ensured
/// inequalities locates the biased exponent of the result relative to
/// `n / d`, which callers use to bound further scalings; the second pair
/// bounds the encoded value to within half an ulp of `n / d` (both sides
/// carry a factor of `2^149`).
pub fn round_ratio(n: u64, d: u64) -> (bits: u32)
    requires
        1 <= n <= 0x1000_0000_0000_0000,
        1 <= d <= 0x1000_0000_0000_0000,
    ensures
        bits == ratio_bits(n as nat, d as nat),
        66 <= bits >> 23 <= 188,
        pow2(22) * (d as nat) * pow2((bits >> 23) as nat) <= (n as nat) * pow2(150),
        (n as nat) * pow2(150) < pow2(25) * (d as nat) * pow2((bits >> 23) as nat),
        2 * f32_val_scaled(bits) * (d as nat) <= 2 * (n as nat) * pow2(149) + (d as nat) * pow2(
            ((((bits >> 23) as nat) - 1) as nat),
        ),
        2 * (n as nat) * pow2(149) <= 2 * f32_val_scaled(bits) * (d as nat) + (d as nat) * pow2(
            ((((bits >> 23) as nat) - 1) as nat),
        ),
{
    proof {
        lemma2_to64();
    }
    let mut num: u128 = n as u128;
    let den0: u128 = d as u128;
    let mut u_cnt: u64 = 0;
    while num < 0x800000 * den0
        invariant
            1 <= den0 <= 0x1000_0000_0000_0000,
            1 <= n <= 0x1000_0000_0000_0000,
            den0 == d as u128,
            num as nat == (n as nat) * pow2(u_cnt as nat),
            num >= 1,
            u_cnt == 0 || num as nat <= 0x1000000 * (den0 as nat),
            u_cnt <= 150,
            norm_up(n as nat, d as nat, 0) == norm_up(num as nat, d as nat, -(u_cnt as int)),
        decreases 0x1000000 * den0 - num,
    {
        proof {
            lemma_pow2_adds(u_cnt as nat, 1nat);
            lemma2_to64();
            lemma2_to64_rest();
            assert((n as nat) * pow2((u_cnt + 1) as nat) == 2 * ((n as nat) * pow2(u_cnt as nat))) by (nonlinear_arith)
                requires
                    pow2((u_cnt + 1) as nat) == 2 * pow2(u_cnt as nat),
            ;
            // the scaled numerator stays below 2^24 * den0 <= 2^84, so the
            // doubling count stays far below 150
            assert(pow2(u_cnt as nat) <= num as nat) by (nonlinear_arith)
                requires
                    num as nat == (n as nat) * pow2(u_cnt as nat),
                    n >= 1,
            ;
            if u_cnt >= 144 {
                lemma_pow2_strictly_increases(84nat, u_cnt as nat);
                lemma_pow2_adds(24nat, 60nat);
                assert(num < 0x800000 * den0);
                assert(pow2(84) == 0x1000000 * 0x1000_0000_0000_0000);
                assert(false);
            }
        }
        num = num * 2;
        u_cnt = u_cnt + 1;
    }
    let ghost e1: int = -(u_cnt as int);
    proof {
        assert(norm_up(num as nat, d as nat, e1) == (num as nat, e1));
        assert(num as nat <= 0x1000000 * (den0 as nat) || num == n as u128);
    }
    let mut den: u128 = den0;
    let mut w_cnt: u64 = 0;
    while num >= 0x1000000 * den
        invariant
            1 <= den0 <= 0x1000_0000_0000_0000,
            1 <= n <= 0x1000_0000_0000_0000,
            den0 == d as u128,
            num as nat <= 0x1000000 * (den0 as nat) || num == n as u128,
            den as nat == (den0 as nat) * pow2(w_cnt as nat),
            den >= den0,
            den <= num || w_cnt == 0,
            0x800000 * den <= num,
            w_cnt <= 150,
            norm_down(num as nat, d as nat, e1) == norm_down(num as nat, den as nat, e1 + w_cnt),
        decreases num - den,
    {
        proof {
            lemma_pow2_adds(w_cnt as nat, 1nat);
            lemma2_to64();
            lemma2_to64_rest();
            assert((den0 as nat) * pow2((w_cnt + 1) as nat) == 2 * ((den0 as nat) * pow2(w_cnt as nat))) by (nonlinear_arith)
                requires
                    pow2((w_cnt + 1) as nat) == 2 * pow2(w_cnt as nat),
            ;
            assert(pow2(w_cnt as nat) <= den as nat) by (nonlinear_arith)
                requires
                    den as nat == (den0 as nat) * pow2(w_cnt as nat),
                    den0 >= 1,
            ;
            if w_cnt >= 144 {
                lemma_pow2_strictly_increases(84nat, w_cnt as nat);
                lemma_pow2_adds(24nat, 60nat);
                assert(pow2(84) == 0x1000000 * 0x1000_0000_0000_0000);
                assert(false);
            }
        }
        den = den * 2;
        w_cnt = w_cnt + 1;
    }
    proof {
        assert(norm_down(num as nat, den as nat, e1 + w_cnt) == (den as nat, e1 + w_cnt));
    }
    let ghost nn: nat = n as nat;
    let ghost dd: nat = d as nat;
    let ghost uu: nat = u_cnt as nat;
    let ghost ww: nat = w_cnt as nat;
    // biased exponent before the carry from rounding
    proof {
        lemma_pow2_adds(23, ww);
        lemma_pow2_adds(60, uu);
        lemma_pow2_adds(24nat, 60nat);
        lemma_pow2_adds(24, ww);
        lemma_pow2_adds(60, ww);
        lemma_pow2_adds(84, ww);
        lemma2_to64();
        lemma2_to64_rest();
        // lower side: 2^23 * d * 2^w <= n * 2^u, with n <= 2^60, gives
        // 23 + w <= 60 + u
        assert(pow2(23 + ww) <= pow2(60 + uu)) by (nonlinear_arith)
            requires
                pow2(23 + ww) == pow2(23) * pow2(ww),
                pow2(60 + uu) == pow2(60) * pow2(uu),
                0x800000 * (den as nat) <= num as nat,
                den as nat == dd * pow2(ww),
                num as nat == nn * pow2(uu),
                1 <= dd,
                nn <= pow2(60),
                pow2(23) == 0x800000,
        ;
        if 23 + ww > 60 + uu {
            lemma_pow2_strictly_increases(60 + uu, 23 + ww);
            assert(false);
        }
        // upper side: n * 2^u < 2^24 * d * 2^w, with d <= 2^60 and n >= 1,
        // gives u < 84 + w
        assert(pow2(uu) < pow2(84 + ww)) by (nonlinear_arith)
            requires
                pow2(84 + ww) == pow2(84) * pow2(ww),
                (num as nat) < 0x1000000 * (den as nat),
                den as nat == dd * pow2(ww),
                num as nat == nn * pow2(uu),
                1 <= nn,
                dd <= pow2(60),
                pow2(84) == pow2(24) * pow2(60),
                pow2(24) == 0x1000000,
        ;
        if uu >= 84 + ww {
            if uu > 84 + ww {
                lemma_pow2_strictly_increases(84 + ww, uu);
            }
            assert(false);
        }
    }
    let be_i: i64 = 150 + (w_cnt as i64) - (u_cnt as i64);
    assert(67 <= be_i <= 187);
    let mut q: u128 = num / den;
    let r: u128 = num % den;
    proof {
        assert(num as nat == (den as nat) * (q as nat) + (r as nat) && r < den && q == (num as nat) / (den as nat)) by (nonlinear_arith)
            requires
                den >= 1,
                q == num / den,
                r == num % den,
        ;
        assert(0x800000 <= q < 0x1000000) by (nonlinear_arith)
            requires
                num as nat == (den as nat) * (q as nat) + (r as nat),
                r < den,
                0x800000 * den <= num,
                num < 0x1000000 * den,
                den >= 1,
        ;
    }
    let ghost qd: nat = q as nat;
    let ghost rd: nat = r as nat;
    if 2 * r > den || (2 * r == den && q % 2 == 1) {
        q = q + 1;
    }
    proof {
        assert(q as nat == round_sig(num as nat / den as nat, num as nat % den as nat, den as nat));
    }
    let ghost q_r: nat = q as nat;
    let mut be: u32 = be_i as u32;
    if q == 0x1000000 {
        q = 0x800000;
        be = be + 1;
    }
    let mant: u32 = (q as u32) - 0x800000;
    let bits: u32 = (be << 23) | mant;
    proof {
        let ghost e2: int = e1 + w_cnt;
        assert((be << 23) | mant == be * 0x800000 + mant) by (bit_vector)
            requires
                be < 256,
                mant < 0x800000,
        ;
        assert(((be << 23) | mant) >> 23 == be) by (bit_vector)
            requires
                be < 256,
                mant < 0x800000,
        ;
        assert(bits == ratio_bits(n as nat, d as nat));
        // exponent bounds, with a factor-of-two slack absorbing the carry
        lemma_pow2_adds(be as nat, uu);
        lemma_pow2_adds(150, ww);
        lemma_pow2_adds(150 + ww, 1nat);
        lemma_pow2_pos(ww);
        lemma_pow2_pos(uu);
        lemma_pow2_pos(be as nat);
        lemma2_to64();
        lemma2_to64_rest();
        if be == be_i + 1 {
            lemma_pow2_adds((be_i as nat), 1nat);
        }
        assert(pow2(22) * dd * pow2(be as nat) <= nn * pow2(150)) by (nonlinear_arith)
            requires
                0x800000 * (den as nat) <= num as nat,
                den as nat == dd * pow2(ww),
                num as nat == nn * pow2(uu),
                pow2(be as nat) * pow2(uu) == pow2((be as nat) + uu),
                pow2(150) * pow2(ww) == pow2(150 + ww),
                (be as nat) + uu == 150 + ww || (be as nat) + uu == 151 + ww,
                pow2(151 + ww) == 2 * pow2(150 + ww),
                pow2(23) == 0x800000,
                pow2(22) * 2 == pow2(23),
                pow2(ww) >= 1,
                pow2(uu) >= 1,
                1 <= dd,
                1 <= nn,
        ;
        assert(nn * pow2(150) < pow2(25) * dd * pow2(be as nat)) by (nonlinear_arith)
            requires
                (num as nat) < 0x1000000 * (den as nat),
                den as nat == dd * pow2(ww),
                num as nat == nn * pow2(uu),
                pow2(be as nat) * pow2(uu) == pow2((be as nat) + uu),
                pow2(150) * pow2(ww) == pow2(150 + ww),
                (be as nat) + uu == 150 + ww || (be as nat) + uu == 151 + ww,
                pow2(151 + ww) == 2 * pow2(150 + ww),
                pow2(24) == 0x1000000,
                pow2(25) == 2 * pow2(24),
                pow2(ww) >= 1,
                pow2(uu) >= 1,
                pow2(be as nat) >= 1,
                1 <= dd,
                1 <= nn,
        ;
        // approximation: the encoded value is within half an ulp of n / d
        let e2: int = w_cnt - u_cnt;
        assert(pow2(uu) <= num as nat) by (nonlinear_arith)
            requires
                num as nat == nn * pow2(uu),
                nn >= 1,
        ;
        lemma_pow2_adds(24nat, 60nat);
        if uu >= 85 {
            lemma_pow2_strictly_increases(84, uu);
            assert(false);
        }
        assert(2 * (q_r * (den as nat)) <= 2 * (num as nat) + (den as nat) && 2 * (num as nat)
            <= 2 * (q_r * (den as nat)) + (den as nat)) by (nonlinear_arith)
            requires
                num as nat == (den as nat) * qd + rd,
                rd < den as nat,
                den >= 1,
                q_r == (if 2 * rd > den as nat || (2 * rd == den as nat && qd % 2 == 1) {
                    qd + 1
                } else {
                    qd
                }),
        ;
        assert(((be << 23) | mant) & 0x7FFFFF == mant) by (bit_vector)
            requires
                be < 256,
                mant < 0x800000,
        ;
        let s_val: nat = f32_val_scaled(bits);
        lemma_pow2_adds((e2 + 149) as nat, 1nat);
        if q == 0x800000 && q_r == 0x1000000 {
            assert(s_val == 0x800000 * pow2((e2 + 150) as nat));
            assert(s_val == q_r * pow2((e2 + 149) as nat));
        } else {
            assert(s_val == q_r * pow2((e2 + 149) as nat));
        }
        lemma_pow2_adds(uu, (149 - uu) as nat);
        lemma_pow2_adds(ww, (149 - uu) as nat);
        assert((num as nat) * pow2((149 - uu) as nat) == nn * pow2(149)) by (nonlinear_arith)
            requires
                num as nat == nn * pow2(uu),
                pow2(uu) * pow2((149 - uu) as nat) == pow2(149),
        ;
        assert((den as nat) * pow2((149 - uu) as nat) == dd * pow2((e2 + 149) as nat))
            by (nonlinear_arith)
            requires
                den as nat == dd * pow2(ww),
                pow2(ww) * pow2((149 - uu) as nat) == pow2((e2 + 149) as nat),
        ;
        assert(2 * s_val * dd <= 2 * nn * pow2(149) + dd * pow2((e2 + 149) as nat) && 2 * nn
            * pow2(149) <= 2 * s_val * dd + dd * pow2((e2 + 149) as nat)) by (nonlinear_arith)
            requires
                2 * (q_r * (den as nat)) <= 2 * (num as nat) + (den as nat),
                2 * (num as nat) <= 2 * (q_r * (den as nat)) + (den as nat),
                s_val == q_r * pow2((e2 + 149) as nat),
                (num as nat) * pow2((149 - uu) as nat) == nn * pow2(149),
                (den as nat) * pow2((149 - uu) as nat) == dd * pow2((e2 + 149) as nat),
                pow2((149 - uu) as nat) >= 1,
        ;
        // with a carry from rounding the ulp in the ensures is one binade
        // larger, which only loosens the bound
        assert(dd * pow2((e2 + 149) as nat) <= dd * pow2((((bits >> 23) as nat) - 1) as nat))
            by (nonlinear_arith)
            requires
                pow2((e2 + 149) as nat) <= pow2((((bits >> 23) as nat) - 1) as nat),
        ;
    }
    bits
}

/// The value of a nonnegative single-precision bit pattern — zero or
/// normal — scaled by `2^149` so it is an integer: significand (hidden bit
/// restored) times two to the biased exponent less one.
pub open spec fn f32_val_scaled(bits: u32) -> nat {
    if bits == 0 {
        0nat
    } else {
        (((bits & 0x7FFFFF) + 0x800000) as nat) * pow2((((bits >> 23) as nat) - 1) as nat)
    }
}

/// With denominator one, scaling the numerator up lands exactly in the
/// binade, with no remainder to round.
proof fn lemma_norm_up_exact(n: nat, e: int)
    requires
        1 <= n < 0x1000000,
    ensures
        ({
            let (n1, e1) = norm_up(n, 1, e);
            &&& e1 <= e
            &&& n1 == n * pow2((e - e1) as nat)
            &&& 0x800000 <= n1 < 0x1000000
        }),
    decreases 0x1000000 - n,
{
    lemma2_to64();
    if n >= 0x800000 {
        assert(norm_up(n, 1, e) == (n, e));
        assert(n * pow2(0) == n);
    } else {
        lemma_norm_up_exact(2 * n, e - 1);
        let (n1, e1) = norm_up(2 * n, 1, e - 1);
        assert(norm_up(n, 1, e) == norm_up(2 * n, 1, e - 1));
        lemma_pow2_adds((e - 1 - e1) as nat, 1);
        assert(2 * n * pow2((e - 1 - e1) as nat) == n * pow2((e - e1) as nat)) by (nonlinear_arith)
            requires
                e1 <= e - 1,
                pow2((e - e1) as nat) == pow2((e - 1 - e1) as nat) * pow2(1),
                pow2(1) == 2,
        ;
    }
}

/// Law: an integer below `2^24` over a denominator of one is encoded
/// exactly — the resulting bit pattern denotes precisely `n` (the value
/// here carries a factor of `2^149`).
pub proof fn lemma_ratio_bits_exact(n: nat)
    requires
        1 <= n < 0x1000000,
    ensures
        f32_val_scaled(ratio_bits(n, 1)) == n * pow2(149),
{
    lemma2_to64();
    lemma_norm_up_exact(n, 0);
    let (n1, e1) = norm_up(n, 1, 0);
    let k = (0 - e1) as nat;
    assert(norm_down(n1, 1, e1) == (1nat, e1));
    assert(n1 / 1 == n1 && n1 % 1 == 0);
    assert(round_sig(n1, 0, 1) == n1);
    assert(pow2(k) <= n1) by (nonlinear_arith)
        requires
            n1 == n * pow2(k),
            n >= 1,
    ;
    if k >= 24 {
        if k > 24 {
            lemma_pow2_strictly_increases(24, k);
        }
        assert(false);
    }
    let be = e1 + 150;
    assert(127 <= be <= 150);
    let bits = ratio_bits(n, 1);
    assert(bits == pack_bits(n1, be));
    let mantv: u32 = ((n1 - 0x800000) as u32);
    let beb: u32 = be as u32;
    assert((beb << 23) | mantv == beb * 0x800000 + mantv) by (bit_vector)
        requires
            beb < 256,
            mantv < 0x800000,
    ;
    assert(((beb << 23) | mantv) & 0x7FFFFF == mantv) by (bit_vector)
        requires
            beb < 256,
            mantv < 0x800000,
    ;
    assert(((beb << 23) | mantv) >> 23 == beb) by (bit_vector)
        requires
            beb < 256,
            mantv < 0x800000,
    ;
    assert(((beb << 23) | mantv) != 0) by (bit_vector)
        requires
            1 <= beb < 256,
            mantv < 0x800000,
    ;
    assert(bits == (beb << 23) | mantv);
    lemma_pow2_adds(k, (149 - k) as nat);
    assert(n1 * pow2((149 - k) as nat) == n * pow2(149)) by (nonlinear_arith)
        requires
            n1 == n * pow2(k),
            pow2(149) == pow2(k) * pow2((149 - k) as nat),
    ;
    assert(f32_val_scaled(bits) == n1 * pow2((149 - k) as nat));
}

} // verus!
