//! Fixed-point angle arithmetic for the quantized headings.
//!
//! A heading increment `i` out of `n` stands for the angle `2*pi*i/n`.
//! Angles and trigonometric values are carried as integers scaled by
//! [`FP_ONE`]; the sine is evaluated by a degree-seven polynomial on the
//! first quadrant and extended by symmetry, with on-axis headings mapped
//! to their exact values. Direction rounding (the nearest of the eight
//! neighbouring cells for a heading) needs no approximation at all: which
//! third or twelfth of the turn the heading falls in decides it exactly.

use vstd::prelude::*;

verus! {

use vstd::arithmetic::div_mod::{
    lemma_div_is_ordered, lemma_fundamental_div_mod, lemma_fundamental_div_mod_converse,
    lemma_mod_division_less_than_divisor, lemma_multiply_divide_le, lemma_multiply_divide_lt,
};

/// The fixed-point scale: this value stands for 1.0.
pub const FP_ONE: u32 = 65536;

/// `pi / 2` scaled by [`FP_ONE`], rounded to the nearest integer.
pub const HALF_PI_FP: u32 = 102944;

/// `2 * pi` scaled by [`FP_ONE`], rounded to the nearest integer.
pub const TWO_PI_FP: u32 = 411775;

/// Sine of `(pi/2) * p / n`, scaled by [`FP_ONE`], as computed by the
/// first-quadrant polynomial `x (1 - x^2/6 (1 - x^2/20 (1 - x^2/42)))`
/// in truncating fixed-point steps, capped at [`FP_ONE`].
pub closed spec fn spec_sin_quarter_fp(p: int, n: int) -> int {
    let x = (p * 102944) / n;
    let q = (x * x) / 65536;
    let u1 = 65536 - q / 42;
    let u2 = 65536 - (q * u1) / (20int * 65536);
    let u3 = 65536 - (q * u2) / (6int * 65536);
    let s = (x * u3) / 65536;
    if s > 65536 {
        65536
    } else {
        s
    }
}

/// Which quarter of the full turn the heading `i` of `n` falls in.
pub open spec fn spec_quadrant(i: int, n: int) -> int {
    (4 * i) / n
}

/// The within-quarter numerator: the heading's angle is
/// `(pi/2) * (quadrant + spec_quarter_frac(i, n) / n)`.
pub open spec fn spec_quarter_frac(i: int, n: int) -> int {
    4 * i - spec_quadrant(i, n) * n
}

/// Sine of the heading angle `2*pi*i/n`, scaled by [`FP_ONE`].
/// On-axis headings (a multiple of a quarter turn) are exact.
pub closed spec fn spec_sin_fp(i: int, n: int) -> int {
    let quadrant = spec_quadrant(i, n);
    let p = spec_quarter_frac(i, n);
    if p == 0 {
        if quadrant == 0 {
            0
        } else if quadrant == 1 {
            65536
        } else if quadrant == 2 {
            0
        } else {
            -65536
        }
    } else {
        if quadrant == 0 {
            spec_sin_quarter_fp(p, n)
        } else if quadrant == 1 {
            spec_sin_quarter_fp(n - p, n)
        } else if quadrant == 2 {
            -spec_sin_quarter_fp(p, n)
        } else {
            -spec_sin_quarter_fp(n - p, n)
        }
    }
}

/// Cosine of the heading angle `2*pi*i/n`, scaled by [`FP_ONE`].
/// On-axis headings (a multiple of a quarter turn) are exact.
pub closed spec fn spec_cos_fp(i: int, n: int) -> int {
    let quadrant = spec_quadrant(i, n);
    let p = spec_quarter_frac(i, n);
    if p == 0 {
        if quadrant == 0 {
            65536
        } else if quadrant == 1 {
            0
        } else if quadrant == 2 {
            -65536
        } else {
            0
        }
    } else {
        if quadrant == 0 {
            spec_sin_quarter_fp(n - p, n)
        } else if quadrant == 1 {
            -spec_sin_quarter_fp(p, n)
        } else if quadrant == 2 {
            -spec_sin_quarter_fp(n - p, n)
        } else {
            spec_sin_quarter_fp(p, n)
        }
    }
}

/// The first-quadrant polynomial stays within the fixed-point unit.
proof fn lemma_sin_quarter_fp_bounds(p: int, n: int)
    requires
        0 < n <= 65535,
        0 <= p <= n,
    ensures
        0 <= spec_sin_quarter_fp(p, n) <= 65536,
{
    let x = (p * 102944) / n;
    assert(0 <= p * 102944 && p * 102944 <= n * 102944) by (nonlinear_arith)
        requires
            0 <= p <= n,
    ;
    vstd::arithmetic::div_mod::lemma_div_pos_is_pos(p * 102944, n);
    lemma_multiply_divide_le(p * 102944, n, 102944int);
    let q = (x * x) / 65536;
    assert(0 <= x * x <= 102944 * 102944) by (nonlinear_arith)
        requires
            0 <= x <= 102944,
    ;
    vstd::arithmetic::div_mod::lemma_div_pos_is_pos(x * x, 65536);
    lemma_div_is_ordered(x * x, 102944int * 102944, 65536int);
    lemma_div_is_ordered(q, 161704int, 42int);
    vstd::arithmetic::div_mod::lemma_div_pos_is_pos(q, 42);
    let u1 = 65536 - q / 42;
    assert(0 <= q * u1 <= 161704 * 65536) by (nonlinear_arith)
        requires
            0 <= q <= 161704,
            0 <= u1 <= 65536,
    ;
    vstd::arithmetic::div_mod::lemma_div_pos_is_pos(q * u1, 20int * 65536);
    lemma_div_is_ordered(q * u1, 161704int * 65536, 20int * 65536);
    let u2 = 65536 - (q * u1) / (20int * 65536);
    assert(0 <= q * u2 <= 161704 * 65536) by (nonlinear_arith)
        requires
            0 <= q <= 161704,
            0 <= u2 <= 65536,
    ;
    vstd::arithmetic::div_mod::lemma_div_pos_is_pos(q * u2, 6int * 65536);
    lemma_div_is_ordered(q * u2, 161704int * 65536, 6int * 65536);
    let u3 = 65536 - (q * u2) / (6int * 65536);
    assert(0 <= x * u3) by (nonlinear_arith)
        requires
            0 <= x,
            0 <= u3,
    ;
    vstd::arithmetic::div_mod::lemma_div_pos_is_pos(x * u3, 65536);
}

/// The quantized sine and cosine stay within the fixed-point unit.
pub proof fn lemma_sin_cos_fp_bounds(i: int, n: int)
    requires
        0 < n <= 65535,
        0 <= i < n,
    ensures
        -65536 <= spec_sin_fp(i, n) <= 65536,
        -65536 <= spec_cos_fp(i, n) <= 65536,
{
    let quadrant = spec_quadrant(i, n);
    let p = spec_quarter_frac(i, n);
    lemma_multiply_divide_lt(4 * i, n, 4int);
    vstd::arithmetic::div_mod::lemma_div_pos_is_pos(4 * i, n);
    lemma_fundamental_div_mod(4 * i, n);
    lemma_mod_division_less_than_divisor(4 * i, n);
    assert(n * ((4 * i) / n) == ((4 * i) / n) * n) by (nonlinear_arith);
    assert(p == (4 * i) % n);
    if p != 0 {
        lemma_sin_quarter_fp_bounds(p, n);
        lemma_sin_quarter_fp_bounds(n - p, n);
    }
}

/// Heading zero is on-axis: its sine is exactly zero and its cosine
/// exactly one, in fixed point.
pub proof fn lemma_sin_cos_fp_zero(n: int)
    requires
        0 < n,
    ensures
        spec_sin_fp(0, n) == 0,
        spec_cos_fp(0, n) == 65536,
{
    lemma_fundamental_div_mod_converse(0, n, 0, 0);
    assert(spec_quadrant(0, n) == 0);
    assert(spec_quarter_frac(0, n) == 0);
}

/// The polynomial sine of at least an eighth of a turn is positive:
/// every truncation step keeps a comfortable margin above zero.
proof fn lemma_sin_quarter_fp_positive(p: int, n: int)
    requires
        0 < n <= 65535,
        0 <= p <= n,
        2 * p >= n,
    ensures
        spec_sin_quarter_fp(p, n) >= 1,
{
    let x = (p * 102944) / n;
    assert(p * 102944 >= n * 51472 && p * 102944 <= n * 102944) by (nonlinear_arith)
        requires
            0 <= p <= n,
            2 * p >= n,
    ;
    lemma_div_is_ordered(n * 51472, p * 102944, n);
    lemma_fundamental_div_mod_converse(n * 51472, n, 51472, 0);
    lemma_multiply_divide_le(p * 102944, n, 102944int);
    assert(51472 <= x <= 102944);
    let q = (x * x) / 65536;
    assert(51472 * 51472 <= x * x <= 102944 * 102944) by (nonlinear_arith)
        requires
            51472 <= x <= 102944,
    ;
    lemma_div_is_ordered(2649366784, x * x, 65536int);
    lemma_div_is_ordered(x * x, 102944int * 102944, 65536int);
    lemma_fundamental_div_mod_converse(2649366784, 65536, 40426, 8448);
    assert(40426 <= q <= 161704);
    lemma_div_is_ordered(q, 161704int, 42int);
    lemma_fundamental_div_mod_converse(161704, 42, 3850, 4);
    vstd::arithmetic::div_mod::lemma_div_pos_is_pos(q, 42);
    let u1 = 65536 - q / 42;
    assert(61686 <= u1 <= 65536);
    assert(0 <= q * u1 <= 161704 * 65536) by (nonlinear_arith)
        requires
            0 <= q <= 161704,
            0 <= u1 <= 65536,
    ;
    lemma_div_is_ordered(q * u1, 161704int * 65536, 20int * 65536);
    vstd::arithmetic::div_mod::lemma_div_pos_is_pos(q * u1, 20int * 65536);
    lemma_fundamental_div_mod_converse(161704int * 65536, 20int * 65536, 8085, 262144);
    let u2 = 65536 - (q * u1) / (20int * 65536);
    assert(57451 <= u2 <= 65536);
    assert(0 <= q * u2 <= 161704 * 65536) by (nonlinear_arith)
        requires
            0 <= q <= 161704,
            0 <= u2 <= 65536,
    ;
    lemma_div_is_ordered(q * u2, 161704int * 65536, 6int * 65536);
    vstd::arithmetic::div_mod::lemma_div_pos_is_pos(q * u2, 6int * 65536);
    lemma_fundamental_div_mod_converse(161704int * 65536, 6int * 65536, 26950, 262144);
    let u3 = 65536 - (q * u2) / (6int * 65536);
    assert(38586 <= u3 <= 65536);
    assert(x * u3 >= 51472 * 38586) by (nonlinear_arith)
        requires
            51472 <= x,
            38586 <= u3,
    ;
    lemma_div_is_ordered(51472int * 38586, x * u3, 65536int);
    lemma_fundamental_div_mod_converse(51472int * 38586, 65536, 30305, 30112);
    let s = (x * u3) / 65536;
    assert(s >= 30305);
}

/// No heading has both its fixed-point sine and cosine equal to zero:
/// at least one of the two quarter arguments covers an eighth of a
/// turn, where the polynomial is positive.
pub proof fn lemma_sin_cos_fp_nonzero(i: int, n: int)
    requires
        0 < n <= 65535,
        0 <= i < n,
    ensures
        spec_sin_fp(i, n) != 0 || spec_cos_fp(i, n) != 0,
{
    let quadrant = spec_quadrant(i, n);
    let p = spec_quarter_frac(i, n);
    lemma_multiply_divide_lt(4 * i, n, 4int);
    vstd::arithmetic::div_mod::lemma_div_pos_is_pos(4 * i, n);
    lemma_fundamental_div_mod(4 * i, n);
    lemma_mod_division_less_than_divisor(4 * i, n);
    assert(n * ((4 * i) / n) == ((4 * i) / n) * n) by (nonlinear_arith);
    assert(p == (4 * i) % n);
    if p != 0 {
        assert(0 < p < n);
        if 2 * p >= n {
            lemma_sin_quarter_fp_positive(p, n);
        } else {
            lemma_sin_quarter_fp_positive(n - p, n);
        }
    }
}

/// First-quadrant polynomial sine, in executable form.
fn sin_quarter_fp(p: u32, n: u32) -> (r: u32)
    requires
        0 < n <= 65535,
        p <= n,
    ensures
        r == spec_sin_quarter_fp(p as int, n as int),
        r <= 65536,
{
    let x: u64 = (p as u64 * 102944) / (n as u64);
    proof {
        assert(p as int * 102944 <= n as int * 102944) by (nonlinear_arith)
            requires
                p as int <= n as int,
        ;
        lemma_multiply_divide_le(p as int * 102944, n as int, 102944int);
        assert(x as int * x as int <= 102944 * 102944) by (nonlinear_arith)
            requires
                0 <= x as int <= 102944,
        ;
        lemma_div_is_ordered(x as int * x as int, 102944int * 102944, 65536int);
    }
    let q: u64 = (x * x) / 65536;
    proof {
        assert(q <= 161704);
        lemma_div_is_ordered(q as int, 161704int, 42int);
    }
    let u1: u64 = 65536 - q / 42;
    proof {
        assert(q as int * u1 as int <= 161704 * 65536) by (nonlinear_arith)
            requires
                0 <= q as int <= 161704,
                0 <= u1 as int <= 65536,
        ;
        lemma_div_is_ordered(q as int * u1 as int, 161704int * 65536, 20int * 65536);
    }
    let u2: u64 = 65536 - (q * u1) / (20 * 65536);
    proof {
        assert(q as int * u2 as int <= 161704 * 65536) by (nonlinear_arith)
            requires
                0 <= q as int <= 161704,
                0 <= u2 as int <= 65536,
        ;
        lemma_div_is_ordered(q as int * u2 as int, 161704int * 65536, 6int * 65536);
    }
    let u3: u64 = 65536 - (q * u2) / (6 * 65536);
    proof {
        assert(x as int * u3 as int <= 102944 * 65536) by (nonlinear_arith)
            requires
                0 <= x as int <= 102944,
                0 <= u3 as int <= 65536,
        ;
    }
    let s: u64 = (x * u3) / 65536;
    if s > 65536 {
        65536
    } else {
        s as u32
    }
}

/// Sine and cosine of the heading angle `2*pi*i/n`, scaled by [`FP_ONE`].
pub fn sin_cos_fp(i: u16, n: u16) -> (r: (i32, i32))
    requires
        0 < n,
        i < n,
    ensures
        r.0 == spec_sin_fp(i as int, n as int),
        r.1 == spec_cos_fp(i as int, n as int),
        -65536 <= r.0 <= 65536,
        -65536 <= r.1 <= 65536,
{
    let four_i: u32 = 4 * (i as u32);
    let n32: u32 = n as u32;
    let quadrant: u32 = four_i / n32;
    proof {
        lemma_multiply_divide_lt(four_i as int, n32 as int, 4int);
        lemma_fundamental_div_mod(four_i as int, n32 as int);
        lemma_mod_division_less_than_divisor(four_i as int, n32 as int);
        assert(n32 as int * (four_i as int / n32 as int) == (four_i as int / n32 as int)
            * n32 as int) by (nonlinear_arith);
    }
    let p: u32 = four_i - quadrant * n32;
    assert(p == spec_quarter_frac(i as int, n as int));
    assert(p < n32);
    if p == 0 {
        if quadrant == 0 {
            (0, 65536)
        } else if quadrant == 1 {
            (65536, 0)
        } else if quadrant == 2 {
            (0, -65536)
        } else {
            (-65536, 0)
        }
    } else {
        let sp = sin_quarter_fp(p, n32);
        let sc = sin_quarter_fp(n32 - p, n32);
        if quadrant == 0 {
            (sp as i32, sc as i32)
        } else if quadrant == 1 {
            (sc as i32, -(sp as i32))
        } else if quadrant == 2 {
            (-(sp as i32), -(sc as i32))
        } else {
            (-(sc as i32), sp as i32)
        }
    }
}

/// The horizontal component of the eight-way direction of heading `r` of
/// `n`: the cosine of the heading angle rounded to the nearest integer
/// (half away from zero) and so always in `{-1, 0, 1}`. The cosine is at
/// least one half exactly when the heading lies within a sixth of a turn
/// of the positive axis, and at most minus one half exactly when it lies
/// within a sixth of a turn of the negative axis, which the comparisons
/// below decide without any trigonometry.
pub open spec fn spec_dir_x(r: int, n: int) -> int {
    if 6 * r <= n || 6 * r >= 5 * n {
        1
    } else if 2 * n <= 6 * r && 6 * r <= 4 * n {
        -1
    } else {
        0
    }
}

/// The vertical component of the eight-way direction of heading `r` of
/// `n`: the sine of the heading angle rounded to the nearest integer,
/// decided exactly as in [`spec_dir_x`].
pub open spec fn spec_dir_y(r: int, n: int) -> int {
    if n <= 12 * r && 12 * r <= 5 * n {
        1
    } else if 7 * n <= 12 * r && 12 * r <= 11 * n {
        -1
    } else {
        0
    }
}

/// No heading rounds to the zero direction: a unit vector cannot have
/// both components below one half in magnitude.
pub proof fn lemma_dir_nonzero(r: int, n: int)
    requires
        0 < n,
        0 <= r < n,
    ensures
        spec_dir_x(r, n) != 0 || spec_dir_y(r, n) != 0,
{
}

/// Executable eight-way direction of heading `r` of `n`.
pub fn direction_of(r: u16, n: u16) -> (d: (i32, i32))
    requires
        0 < n,
        r < n,
    ensures
        d.0 == spec_dir_x(r as int, n as int),
        d.1 == spec_dir_y(r as int, n as int),
        !(d.0 == 0 && d.1 == 0),
        -1 <= d.0 <= 1,
        -1 <= d.1 <= 1,
{
    let r6: u32 = 6 * (r as u32);
    let r12: u32 = 12 * (r as u32);
    let n32: u32 = n as u32;
    let dx: i32 = if r6 <= n32 || r6 >= 5 * n32 {
        1
    } else if 2 * n32 <= r6 && r6 <= 4 * n32 {
        -1
    } else {
        0
    };
    let dy: i32 = if n32 <= r12 && r12 <= 5 * n32 {
        1
    } else if 7 * n32 <= r12 && r12 <= 11 * n32 {
        -1
    } else {
        0
    };
    proof {
        lemma_dir_nonzero(r as int, n as int);
    }
    (dx, dy)
}

/// The integer square root: the unique `r >= 0` with
/// `r * r <= x < (r + 1) * (r + 1)`.
pub closed spec fn spec_isqrt(x: int) -> int {
    choose|r: int| 0 <= r && #[trigger] (r * r) <= x && x < (r + 1) * (r + 1)
}

/// Any two integer square roots of the same value coincide.
proof fn lemma_isqrt_unique(x: int, a: int, b: int)
    requires
        0 <= a,
        0 <= b,
        a * a <= x < (a + 1) * (a + 1),
        b * b <= x < (b + 1) * (b + 1),
    ensures
        a == b,
{
    assert(a == b) by (nonlinear_arith)
        requires
            0 <= a,
            0 <= b,
            a * a <= x < (a + 1) * (a + 1),
            b * b <= x < (b + 1) * (b + 1),
    ;
}

/// Integer square root of a 64-bit value: the greatest `r` with
/// `r * r <= x`.
pub fn isqrt64(x: u64) -> (r: u64)
    ensures
        r * r <= x,
        x < (r + 1) * (r + 1),
        r == spec_isqrt(x as int),
{
    let mut lo: u64 = 0;
    let mut hi: u64 = 0x1_0000_0000;
    proof {
        assert(x < (0x1_0000_0000u64 as int) * (0x1_0000_0000u64 as int)) by (nonlinear_arith)
            requires
                x <= u64::MAX,
        ;
    }
    while lo + 1 < hi
        invariant
            lo < hi <= 0x1_0000_0000,
            lo * lo <= x,
            x < hi * hi,
        decreases hi - lo,
    {
        let mid: u64 = lo + (hi - lo) / 2;
        proof {
            assert(lo < mid < hi);
            assert((mid as int) * (mid as int) < (0x1_0000_0000u64 as int) * (0x1_0000_0000u64 as int))
                by (nonlinear_arith)
                requires
                    0 <= mid as int && (mid as int) < (0x1_0000_0000u64 as int),
            ;
        }
        if mid * mid <= x {
            lo = mid;
        } else {
            hi = mid;
        }
    }
    proof {
        let l = lo as int;
        assert(exists|r: int| 0 <= r && #[trigger] (r * r) <= x && x < (r + 1) * (r + 1)) by {
            assert(0 <= l && l * l <= x && x < (l + 1) * (l + 1));
        }
        let w = spec_isqrt(x as int);
        assert(0 <= w && w * w <= x && x < (w + 1) * (w + 1));
        lemma_isqrt_unique(x as int, w, l);
    }
    lo
}

} // verus!
