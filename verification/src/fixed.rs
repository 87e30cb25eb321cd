//! Fixed-point arithmetic for retrieval scores: scores are signed
//! millionths of an activation unit. Division truncates toward zero and
//! additions saturate, exactly as the contracts state.
use vstd::prelude::*;

use crate::timeparse::pow10;

verus! {

/// Truncating division for a positive divisor.
pub open spec fn tdiv(a: int, b: int) -> int
    recommends
        b > 0,
{
    if a >= 0 {
        a / b
    } else {
        -((-a) / b)
    }
}

/// A value clamped to the i64 range.
pub open spec fn sat64(x: int) -> i64 {
    if x > i64::MAX {
        i64::MAX as i64
    } else if x < i64::MIN {
        i64::MIN as i64
    } else {
        x as i64
    }
}

/// Saturating addition of scores.
pub open spec fn sat_add64(a: i64, b: i64) -> i64 {
    sat64(a + b)
}

/// Computes `tdiv` on machine integers.
pub fn tdiv_i128(a: i128, b: i128) -> (r: i128)
    requires
        b > 0,
        a > i128::MIN,
    ensures
        r == tdiv(a as int, b as int),
        (a >= 0 ==> 0 <= r <= a) && (a < 0 ==> a <= r <= 0),
{
    if a >= 0 {
        let q = ((a as u128) / (b as u128)) as i128;
        proof {
            vstd::arithmetic::div_mod::lemma_div_is_ordered(a as int, a as int, b as int);
            vstd::arithmetic::div_mod::lemma_div_basics(b as int);
            assert(a as int / b as int >= 0) by {
                vstd::arithmetic::div_mod::lemma_div_pos_is_pos(a as int, b as int);
            }
        }
        q
    } else {
        let n = -a;
        let q = ((n as u128) / (b as u128)) as i128;
        proof {
            vstd::arithmetic::div_mod::lemma_div_is_ordered(n as int, n as int, b as int);
            assert(n as int / b as int >= 0) by {
                vstd::arithmetic::div_mod::lemma_div_pos_is_pos(n as int, b as int);
            }
        }
        -q
    }
}

/// Clamps to the i64 range.
pub fn sat_i64(x: i128) -> (r: i64)
    ensures
        r == sat64(x as int),
{
    if x > i64::MAX as i128 {
        i64::MAX
    } else if x < i64::MIN as i128 {
        i64::MIN
    } else {
        x as i64
    }
}

/// Saturating score addition.
pub fn sat_add_i64(a: i64, b: i64) -> (r: i64)
    ensures
        r == sat_add64(a, b),
{
    sat_i64(a as i128 + b as i128)
}

/// The energy handed along one edge: the source score scaled by the
/// edge weight, the stage decay and the inverse-frequency factor, each in
/// millionths, truncating toward zero and saturating at the end.
pub open spec fn energy_of(score: i64, strength: u16, decay_m: int, invf: int) -> i64
    recommends
        0 <= decay_m <= 1000000,
        0 <= invf <= 1000000,
{
    let w = (strength * 1000000) / 65535;
    sat64(tdiv(tdiv(tdiv(score * w, 1000000) * decay_m, 1000000) * invf, 1000000))
}

/// Computes `energy_of`.
pub fn energy(score: i64, strength: u16, decay_m: u32, invf: u64) -> (r: i64)
    requires
        decay_m <= 1000000,
        invf <= 1000000,
    ensures
        r == energy_of(score, strength, decay_m as int, invf as int),
{
    let w: u64 = (strength as u64 * 1000000) / 65535;
    proof {
        vstd::arithmetic::div_mod::lemma_div_is_ordered(
            (strength as int) * 1000000,
            65535int * 1000000,
            65535int,
        );
        vstd::arithmetic::div_mod::lemma_div_by_multiple(1000000, 65535);
    }
    proof {
        lemma_mul_abs_bound(score as int, w as int, 0x8000000000000000, 1000000);
    }
    let e1 = tdiv_i128(score as i128 * w as i128, 1000000);
    proof {
        lemma_mul_abs_bound(e1 as int, decay_m as int, 9223372036854775808000000, 1000000);
    }
    let e2 = tdiv_i128(e1 * decay_m as i128, 1000000);
    proof {
        lemma_mul_abs_bound(e2 as int, invf as int, 9223372036854775808000000000000, 1000000);
    }
    let e3 = tdiv_i128(e2 * invf as i128, 1000000);
    sat_i64(e3)
}

/// A product of bounded factors is bounded.
pub proof fn lemma_mul_abs_bound(a: int, b: int, abound: int, bbound: int)
    requires
        -abound <= a <= abound,
        0 <= b <= bbound,
        0 <= abound,
        0 <= bbound,
    ensures
        -(abound * bbound) <= a * b <= abound * bbound,
{
    assert(-(abound * bbound) <= a * b <= abound * bbound) by (nonlinear_arith)
        requires
            -abound <= a <= abound,
            0 <= b <= bbound,
            0 <= abound,
            0 <= bbound,
    ;
}

/// The floor of the base-ten logarithm of a positive number.
pub open spec fn lg10(d: int) -> int
    recommends
        d >= 1,
    decreases d,
{
    if d < 10 {
        0
    } else {
        1 + lg10(d / 10)
    }
}

/// `lg10` is determined by the enclosing powers of ten.
proof fn lemma_lg10_value(d: int, e: int)
    requires
        1 <= d,
        0 <= e,
        pow10(e) <= d < pow10(e + 1),
    ensures
        lg10(d) == e,
    decreases e,
{
    if e == 0 {
        assert(pow10(1) == 10 * pow10(0));
        assert(pow10(0) == 1);
    } else {
        assert(pow10(e) == 10 * pow10(e - 1));
        assert(pow10(e + 1) == 10 * pow10(e));
        assert(pow10(e) >= 10) by {
            lemma_pow10_ge_one(e - 1);
        }
        assert(d >= 10);
        assert(pow10(e - 1) <= d / 10 < pow10(e)) by (nonlinear_arith)
            requires
                pow10(e) <= d < pow10(e + 1),
                pow10(e) == 10 * pow10(e - 1),
                pow10(e + 1) == 10 * pow10(e),
                d >= 10,
        ;
        assert(d / 10 >= 1);
        lemma_lg10_value(d / 10, e - 1);
    }
}

/// Powers of ten are at least one.
proof fn lemma_pow10_ge_one(k: int)
    ensures
        pow10(k) >= 1,
    decreases k,
{
    if k > 0 {
        lemma_pow10_ge_one(k - 1);
    }
}

/// The inverse-frequency damping factor in millionths:
/// `1 / (1 + log10(d))`, with the logarithm interpolated linearly between
/// neighboring powers of ten in thousandths.
pub open spec fn inv_freq_of(d: int) -> int
    recommends
        d >= 1,
{
    let e = lg10(d);
    let p = pow10(e);
    let lm = 1000 * e + (1000 * (d - p)) / (9 * p);
    1000000000int / (1000 + lm)
}

/// Computes `inv_freq_of` for the degree actually used: a degree below
/// one counts as one.
pub fn inv_freq(deg: u32) -> (r: u64)
    ensures
        r == inv_freq_of(if deg >= 1 {
            deg as int
        } else {
            1
        }),
        r <= 1000000,
{
    let d: u64 = if deg >= 1 {
        deg as u64
    } else {
        1
    };
    let mut e: u32 = 0;
    let mut p: u64 = 1;
    while p * 10 <= d
        invariant
            1 <= d <= 0xFFFFFFFF,
            p == pow10(e as int),
            1 <= p <= d,
            e <= 10,
        decreases d - p,
    {
        proof {
            assert(pow10(e + 1) == 10 * pow10(e as int));
            if e >= 10 {
                assert(pow10(10) == 10000000000) by {
                    assert(pow10(0) == 1);
                    assert(pow10(1) == 10);
                    assert(pow10(2) == 100);
                    assert(pow10(3) == 1000);
                    assert(pow10(4) == 10000);
                    assert(pow10(5) == 100000);
                    assert(pow10(6) == 1000000);
                    assert(pow10(7) == 10000000);
                    assert(pow10(8) == 100000000);
                    assert(pow10(9) == 1000000000);
                    assert(pow10(10) == 10000000000);
                }
            }
        }
        p = p * 10;
        e = e + 1;
    }
    proof {
        assert(pow10(e + 1) == 10 * pow10(e as int));
        lemma_lg10_value(d as int, e as int);
    }
    let lm: u64 = 1000 * (e as u64) + (1000 * (d - p)) / (9 * p);
    proof {
        assert(d - p < 9 * p) by {
            assert(d < 10 * p);
        }
        assert((1000 * (d - p)) / (9 * p) < 1000) by {
            assert(1000 * ((d as int) - (p as int)) < 1000 * (9 * (p as int)))
                by (nonlinear_arith)
                requires
                    (d as int) - (p as int) < 9 * (p as int),
            ;
            vstd::arithmetic::div_mod::lemma_div_is_ordered(
                1000 * (d as int - p as int),
                9000 * p as int - 1,
                9 * p as int,
            );
            assert((9000 * p as int - 1) / (9 * p as int) < 1000) by (nonlinear_arith)
                requires
                    p >= 1,
            ;
        }
    }
    proof {
        vstd::arithmetic::div_mod::lemma_div_by_multiple(1000000, 1000);
        vstd::arithmetic::div_mod::lemma_div_is_ordered_by_denominator(
            1000000000,
            1000,
            1000 + lm as int,
        );
        assert(1000000000int / 1000 == 1000000);
    }
    1000000000 / (1000 + lm)
}

/// The Ebbinghaus retention factor in millionths for an age of `dt`
/// seconds: a four-term series for the exponential decay with a one-year
/// constant, floored at 0.8.
pub open spec fn ebb_factor_of(dt: u64) -> int {
    let x = (dt * 1000000) / 31536000;
    if x >= 223144 {
        800000
    } else {
        let t = 1000000 - x + (x * x) / 2000000 - (x * x * x) / 6000000000000;
        if t < 800000 {
            800000
        } else {
            t
        }
    }
}

/// Computes `ebb_factor_of`.
pub fn ebb_factor(dt: u64) -> (r: i64)
    ensures
        r == ebb_factor_of(dt),
        800000 <= r <= 1000000,
{
    let x128: u128 = (dt as u128 * 1000000) / 31536000;
    proof {
        assert(dt as int * 1000000 == dt * 1000000);
        vstd::arithmetic::div_mod::lemma_div_pos_is_pos(dt as int * 1000000, 31536000);
    }
    if x128 >= 223144 {
        800000
    } else {
        let x: u64 = x128 as u64;
        proof {
            assert(x < 223144);
            assert((x as int) * (x as int) < 223144 * 223144) by (nonlinear_arith)
                requires
                    0 <= x < 223144,
            ;
        }
        let sq: u64 = x * x;
        proof {
            assert((sq as int) * (x as int) < 49793244736 * 223144) by (nonlinear_arith)
                requires
                    0 <= sq < 49793244736,
                    0 <= x < 223144,
            ;
        }
        let cu: u64 = sq * x;
        proof {
            vstd::arithmetic::div_mod::lemma_div_pos_is_pos(sq as int, 2000000);
            vstd::arithmetic::div_mod::lemma_div_pos_is_pos(cu as int, 6000000000000);
            vstd::arithmetic::div_mod::lemma_div_is_ordered(sq as int, 49793244736, 2000000);
            vstd::arithmetic::div_mod::lemma_div_is_ordered(
                cu as int,
                11111063803369984,
                6000000000000,
            );
            assert((sq as int) <= (x as int) * 223143) by (nonlinear_arith)
                requires
                    0 <= x <= 223143,
                    sq == (x as int) * (x as int),
            ;
            assert((x as int) * 223143 <= (x as int) * 2000000) by (nonlinear_arith)
                requires
                    0 <= x,
            ;
            vstd::arithmetic::div_mod::lemma_div_is_ordered(
                sq as int,
                (x as int) * 2000000,
                2000000,
            );
            vstd::arithmetic::div_mod::lemma_div_by_multiple(x as int, 2000000);
        }
        let t: i64 = 1000000 - (x as i64) + ((sq / 2000000) as i64) - ((cu / 6000000000000)
            as i64);
        if t < 800000 {
            800000
        } else {
            t
        }
    }
}

/// The number of set bits among the low `n` bits of a 128-bit word.
pub open spec fn popcnt128(x: u128, n: int) -> int
    decreases n,
{
    if n <= 0 {
        0
    } else {
        popcnt128(x, n - 1) + (if (x >> ((n - 1) as u128)) & 1 == 1 {
            1int
        } else {
            0
        })
    }
}

/// The number of set bits of a 128-bit word.
pub open spec fn pop128(x: u128) -> int {
    popcnt128(x, 128)
}

/// Counts the set bits of a 128-bit word.
pub fn popcount128(x: u128) -> (c: u32)
    ensures
        c as int == pop128(x),
        c <= 128,
{
    let mut c: u32 = 0;
    let mut i: usize = 0;
    while i < 128
        invariant
            i <= 128,
            c as int == popcnt128(x, i as int),
            c <= i,
        decreases 128 - i,
    {
        if (x >> (i as u128)) & 1 == 1 {
            c = c + 1;
        }
        i = i + 1;
    }
    c
}

} // verus!
