//! Order and classification of scalars, read off their bit patterns.

use crate::types::Scalar;
use vstd::arithmetic::power2::{
    lemma_pow2_pos, lemma_pow2_strictly_increases, lemma_pow2_unfold, pow2,
};
use vstd::prelude::*;

verus! {

/// Bit pattern of positive infinity.
pub const INFINITY: Scalar = 0x7f80_0000;

/// Bit pattern of positive zero.
pub const ZERO: Scalar = 0;

/// The value of a pattern without its sign bit. Patterns of equal sign are
/// ordered in absolute value as their magnitudes are.
pub open spec fn magnitude(s: Scalar) -> int {
    if s >= 0x8000_0000 {
        s - 0x8000_0000
    } else {
        s as int
    }
}

/// Whether the pattern is one of a NaN: every exponent bit set, and a
/// mantissa that is not zero.
pub open spec fn nan(s: Scalar) -> bool {
    magnitude(s) > INFINITY
}

/// Whether the pattern is one of a finite number.
pub open spec fn finite(s: Scalar) -> bool {
    magnitude(s) < INFINITY
}

/// Position of a number on the real line: the order of positions is the order
/// of the numbers that are not NaN, and the two zeros share position 0.
pub open spec fn position(s: Scalar) -> int {
    if s >= 0x8000_0000 {
        -magnitude(s)
    } else {
        magnitude(s)
    }
}

/// `a < b`, which is false where either is NaN.
pub open spec fn less(a: Scalar, b: Scalar) -> bool {
    !nan(a) && !nan(b) && position(a) < position(b)
}

/// The value of a finite number, counted in the smallest positive one.
pub open spec fn units(s: Scalar) -> int {
    let exponent = magnitude(s) / 0x80_0000;
    let mantissa = magnitude(s) % 0x80_0000;
    let size = if exponent == 0 {
        mantissa
    } else {
        (0x80_0000 + mantissa) * pow2((exponent - 1) as nat)
    };
    if s >= 0x8000_0000 {
        -size
    } else {
        size
    }
}

/// Whether `[lo, hi)` is a range of finite numbers that is not empty, and whose
/// width does not round to infinity.
pub open spec fn drawable(lo: Scalar, hi: Scalar) -> bool {
    &&& finite(lo)
    &&& finite(hi)
    &&& less(lo, hi)
    &&& units(hi) - units(lo) < 0x1ff_ffff * pow2(252)
}

/// Whether `s` is NaN.
pub fn is_nan(s: Scalar) -> (r: bool)
    ensures
        r == nan(s),
{
    if s >= 0x8000_0000 {
        s - 0x8000_0000 > INFINITY
    } else {
        s > INFINITY
    }
}

/// Whether `s` is neither NaN nor infinite.
pub fn is_finite(s: Scalar) -> (r: bool)
    ensures
        r == finite(s),
{
    if s >= 0x8000_0000 {
        s - 0x8000_0000 < INFINITY
    } else {
        s < INFINITY
    }
}

/// The position of `s` on the real line.
pub fn real_position(s: Scalar) -> (r: i64)
    ensures
        r == position(s),
{
    if s >= 0x8000_0000 {
        -((s - 0x8000_0000) as i64)
    } else {
        s as i64
    }
}

/// `a < b`.
pub fn is_less(a: Scalar, b: Scalar) -> (r: bool)
    ensures
        r == less(a, b),
{
    !is_nan(a) && !is_nan(b) && real_position(a) < real_position(b)
}

/// `s <= 0`.
pub fn is_at_most_zero(s: Scalar) -> (r: bool)
    ensures
        r == (!nan(s) && position(s) <= 0),
{
    !is_nan(s) && real_position(s) <= 0
}

/// Every exponent bit set and a mantissa that is not zero make a NaN, and
/// nothing else does. Every exponent bit set and a mantissa of zero make an
/// infinity, and all other patterns are those of finite numbers.
pub proof fn lemma_classes(s: Scalar)
    ensures
        nan(s) <==> (s / 0x80_0000) % 256 == 255 && s % 0x80_0000 != 0,
        finite(s) <==> (s / 0x80_0000) % 256 != 255,
        !nan(s) && !finite(s) <==> s == 0x7f80_0000 || s == 0xff80_0000,
{
}

/// A pattern of sign, exponent and mantissa bits stands for the number that
/// these make, with the hidden bit of the mantissa set unless the exponent is
/// zero.
pub proof fn lemma_units(negative: bool, exponent: int, mantissa: int, s: Scalar)
    requires
        0 <= exponent < 255,
        0 <= mantissa < 0x80_0000,
        s == (if negative {
            0x8000_0000int
        } else {
            0
        }) + exponent * 0x80_0000 + mantissa,
    ensures
        finite(s),
        exponent == 0 ==> units(s) == if negative {
            -mantissa
        } else {
            mantissa
        },
        exponent > 0 ==> units(s) == if negative {
            -((0x80_0000 + mantissa) * pow2((exponent - 1) as nat))
        } else {
            (0x80_0000 + mantissa) * pow2((exponent - 1) as nat)
        },
{
    assert(magnitude(s) == exponent * 0x80_0000 + mantissa);
    vstd::arithmetic::div_mod::lemma_fundamental_div_mod_converse(
        magnitude(s),
        0x80_0000,
        exponent,
        mantissa,
    );
}

/// The absolute value grows with the magnitude.
proof fn lemma_size_grows(a: Scalar, b: Scalar)
    requires
        a < b < INFINITY,
    ensures
        0 <= units(a) < units(b),
{
    let (ea, ma) = (a as int / 0x80_0000, a as int % 0x80_0000);
    let (eb, mb) = (b as int / 0x80_0000, b as int % 0x80_0000);
    if ea > 0 {
        lemma_pow2_pos((ea - 1) as nat);
    }
    if eb > 0 {
        lemma_pow2_pos((eb - 1) as nat);
    }
    assert(ea <= eb);
    if ea == eb {
        assert(ma < mb);
        if ea > 0 {
            let p = pow2((ea - 1) as nat);
            assert(0 <= (0x80_0000 + ma) * p < (0x80_0000 + mb) * p) by (nonlinear_arith)
                requires
                    p > 0,
                    0 <= ma < mb,
            ;
        }
    } else {
        let q = pow2((eb - 1) as nat);
        assert(0x80_0000 * q <= (0x80_0000 + mb) * q) by (nonlinear_arith)
            requires
                q > 0,
                mb >= 0,
        ;
        if ea == 0 {
            assert(ma < 0x80_0000 * q) by (nonlinear_arith)
                requires
                    q >= 1,
                    ma < 0x80_0000,
            ;
        } else {
            let p = pow2((ea - 1) as nat);
            lemma_pow2_unfold(ea as nat);
            assert(pow2(ea as nat) == 2 * p);
            if ea < eb - 1 {
                lemma_pow2_strictly_increases(ea as nat, (eb - 1) as nat);
            }
            assert(2 * p <= q);
            assert(0 <= (0x80_0000 + ma) * p < 0x80_0000 * (2 * p)) by (nonlinear_arith)
                requires
                    p > 0,
                    0 <= ma < 0x80_0000,
            ;
            assert(0x80_0000 * (2 * p) <= 0x80_0000 * q) by (nonlinear_arith)
                requires
                    2 * p <= q,
            ;
        }
    }
}

/// Finite numbers are ordered by their values, and infinities lie beyond all
/// of them. NaN is ordered with nothing.
pub proof fn lemma_less(a: Scalar, b: Scalar)
    ensures
        finite(a) && finite(b) ==> (less(a, b) <==> units(a) < units(b)),
        finite(a) && finite(b) ==> (position(a) == position(b) <==> units(a) == units(b)),
        finite(a) ==> less(a, 0x7f80_0000) && less(0xff80_0000, a),
        less(0xff80_0000, 0x7f80_0000),
        !less(0x7f80_0000, a) && !less(a, 0xff80_0000) && !less(a, a),
        nan(a) || nan(b) ==> !less(a, b),
{
    if finite(a) && finite(b) {
        let (ma, mb) = (magnitude(a) as Scalar, magnitude(b) as Scalar);
        assert(units(ma) == if a >= 0x8000_0000 {
            -units(a)
        } else {
            units(a)
        });
        assert(units(mb) == if b >= 0x8000_0000 {
            -units(b)
        } else {
            units(b)
        });
        assert(units(0) == 0);
        if ma < mb {
            lemma_size_grows(ma, mb);
        } else if mb < ma {
            lemma_size_grows(mb, ma);
        }
        if ma > 0 {
            lemma_size_grows(0, ma);
        }
        if mb > 0 {
            lemma_size_grows(0, mb);
        }
    }
}

} // verus!
