use vstd::prelude::*;
use vstd::arithmetic::div_mod::{
    lemma_div_is_ordered, lemma_div_multiples_vanish, lemma_fundamental_div_mod,
    lemma_fundamental_div_mod_converse,
};
use crate::num::{abs_int, div_trunc, lemma_rdiv_mag_bounds, rdiv, rdiv_mag, rdiv_u128};

verus! {

/// One byte, counted in ticks: a `Unit` stores its byte quantity in fixed
/// point, as a signed number of 10^-10-byte ticks. Every quantity a `Unit`
/// can hold is therefore exact to ten decimal digits below a byte.
pub const FP_DEN: i128 = 10_000_000_000;

/// Largest tick magnitude a `Unit` can hold: 10^36 ticks, that is 10^26
/// bytes, about ninety billion terabytes either way.
pub const FP_MAX: i128 = 1_000_000_000_000_000_000_000_000_000_000_000_000;

/// Largest magnitude, in ticks, that intermediate products of `multiply`
/// and `divide` may reach (10^37; it must stay below the machine's
/// 128-bit range).
pub const PROD_MAX: i128 = 10_000_000_000_000_000_000_000_000_000_000_000_000;

/// Bytes per kilobyte (2^10).
pub const BYTES_PER_KB: i128 = 1_024;

/// Bytes per megabyte (2^20).
pub const BYTES_PER_MB: i128 = 1_048_576;

/// Bytes per gigabyte (2^30).
pub const BYTES_PER_GB: i128 = 1_073_741_824;

/// Bytes per terabyte (2^40).
pub const BYTES_PER_TB: i128 = 1_099_511_627_776;

/// A quantity of digital storage. The value is always a number of bytes,
/// however it was constructed; its abstract view (`self@`) is that number
/// of bytes times `FP_DEN`, an integer. Two units are equal exactly when
/// they stand for the same quantity.
#[derive(Clone, Copy, PartialEq, Eq, Structural, PartialOrd, Debug)]
pub struct Unit {
    ticks: i128,
}

impl View for Unit {
    type V = int;

    closed spec fn view(&self) -> int {
        self.ticks as int
    }
}

impl Unit {
    #[verifier::type_invariant]
    spec fn inv(self) -> bool {
        -FP_MAX <= self.ticks <= FP_MAX
    }

    /// Two units with the same view are the same unit: the representation
    /// is canonical.
    pub proof fn lemma_view_injective(a: Unit, b: Unit)
        ensures
            a@ == b@ <==> a == b,
    {
    }

    /// Internal constructor from a tick count.
    pub(crate) fn from_ticks(t: i128) -> (r: Unit)
        requires
            -FP_MAX <= t <= FP_MAX,
        ensures
            r@ == t as int,
    {
        Unit { ticks: t }
    }

    /// The tick count, together with the range every unit keeps.
    pub(crate) fn ticks_i128(&self) -> (t: i128)
        ensures
            t as int == self@,
            -FP_MAX <= t <= FP_MAX,
    {
        proof {
            use_type_invariant(self);
        }
        self.ticks
    }

    /// The stored quantity in whole bytes, rounded toward zero. When the
    /// quantity is a whole number of bytes the result is exact.
    pub fn as_bytes(&self) -> (r: i128)
        ensures
            r as int == div_trunc(self@, FP_DEN as int),
            self@ % (FP_DEN as int) == 0 ==> (r as int) * (FP_DEN as int) == self@,
    {
        proof {
            use_type_invariant(self);
            lemma_div_bound_pos(abs_int(self@), FP_DEN as int);
            if self@ % (FP_DEN as int) == 0 {
                lemma_exact_div(self@, FP_DEN as int);
            }
        }
        if self.ticks >= 0 {
            let q = (self.ticks as u128) / (FP_DEN as u128);
            q as i128
        } else {
            let m = (-self.ticks) as u128;
            let q = m / (FP_DEN as u128);
            -(q as i128)
        }
    }

    /// A unit holding exactly `value` bytes.
    pub fn from_bytes(value: i64) -> (r: Unit)
        ensures
            r@ == (value as int) * (FP_DEN as int),
    {
        Self::scaled(value, 1)
    }

    /// A unit holding exactly `value` kilobytes, that is `value * 2^10` bytes.
    pub fn from_kilo_bytes(value: i64) -> (r: Unit)
        ensures
            r@ == (value as int) * (BYTES_PER_KB as int) * (FP_DEN as int),
    {
        Self::scaled(value, BYTES_PER_KB)
    }

    /// A unit holding exactly `value` megabytes, that is `value * 2^20` bytes.
    pub fn from_mega_bytes(value: i64) -> (r: Unit)
        ensures
            r@ == (value as int) * (BYTES_PER_MB as int) * (FP_DEN as int),
    {
        Self::scaled(value, BYTES_PER_MB)
    }

    /// A unit holding exactly `value` gigabytes, that is `value * 2^30`
    /// bytes. The quantity must stay within the representable range.
    pub fn from_giga_bytes(value: i64) -> (r: Unit)
        requires
            -FP_MAX <= (value as int) * (BYTES_PER_GB as int) * (FP_DEN as int) <= FP_MAX,
        ensures
            r@ == (value as int) * (BYTES_PER_GB as int) * (FP_DEN as int),
    {
        Self::scaled(value, BYTES_PER_GB)
    }

    /// A unit holding exactly `value` terabytes, that is `value * 2^40`
    /// bytes. The quantity must stay within the representable range.
    pub fn from_tera_bytes(value: i64) -> (r: Unit)
        requires
            -FP_MAX <= (value as int) * (BYTES_PER_TB as int) * (FP_DEN as int) <= FP_MAX,
        ensures
            r@ == (value as int) * (BYTES_PER_TB as int) * (FP_DEN as int),
    {
        Self::scaled(value, BYTES_PER_TB)
    }

    /// Scale-and-store helper shared by the constructors.
    fn scaled(value: i64, scale: i128) -> (r: Unit)
        requires
            1 <= scale <= BYTES_PER_TB,
            -FP_MAX <= (value as int) * (scale as int) * (FP_DEN as int) <= FP_MAX,
        ensures
            r@ == (value as int) * (scale as int) * (FP_DEN as int),
    {
        proof {
            assert(-1099511627776000000000000000000000 <= (value as int) * (scale as int)
                <= 1099511627776000000000000000000000) by (nonlinear_arith)
                requires
                    -0x8000_0000_0000_0000 <= value as int <= 0x7fff_ffff_ffff_ffff,
                    1 <= scale as int <= 1_099_511_627_776,
            ;
        }
        let s = (value as i128) * scale;
        Unit { ticks: s * FP_DEN }
    }

    /// The sum of the two quantities; `self` and `rhs` are unchanged.
    pub fn add(self, rhs: Unit) -> (r: Unit)
        requires
            -FP_MAX <= self@ + rhs@ <= FP_MAX,
        ensures
            r@ == self@ + rhs@,
    {
        proof {
            use_type_invariant(&self);
            use_type_invariant(&rhs);
        }
        Unit { ticks: self.ticks + rhs.ticks }
    }

    /// The difference of the two quantities.
    pub fn subtract(self, rhs: Unit) -> (r: Unit)
        requires
            -FP_MAX <= self@ - rhs@ <= FP_MAX,
        ensures
            r@ == self@ - rhs@,
    {
        proof {
            use_type_invariant(&self);
            use_type_invariant(&rhs);
        }
        Unit { ticks: self.ticks - rhs.ticks }
    }

    /// The product of the two raw byte quantities, rounded to the nearest
    /// tick (halves away from zero).
    pub fn multiply(self, rhs: Unit) -> (r: Unit)
        requires
            -PROD_MAX <= self@ * rhs@ <= PROD_MAX,
        ensures
            r@ == rdiv(self@ * rhs@, FP_DEN as int),
    {
        proof {
            use_type_invariant(&self);
            use_type_invariant(&rhs);
        }
        let neg = (self.ticks < 0) != (rhs.ticks < 0);
        let ma = if self.ticks < 0 {
            (-self.ticks) as u128
        } else {
            self.ticks as u128
        };
        let mb = if rhs.ticks < 0 {
            (-rhs.ticks) as u128
        } else {
            rhs.ticks as u128
        };
        proof {
            assert((ma as int) * (mb as int) == abs_int(self@ * rhs@)) by (nonlinear_arith)
                requires
                    ma as int == abs_int(self@),
                    mb as int == abs_int(rhs@),
            ;
            lemma_rdiv_mag_bounds(abs_int(self@ * rhs@), FP_DEN as int);
            lemma_div_is_ordered(abs_int(self@ * rhs@), PROD_MAX as int, FP_DEN as int);
            assert((neg ==> self@ * rhs@ <= 0) && (!neg ==> self@ * rhs@ >= 0))
                by (nonlinear_arith)
                requires
                    neg == ((self@ < 0) != (rhs@ < 0)),
            ;
        }
        let p = (ma as u128) * (mb as u128);
        let q = rdiv_u128(p, FP_DEN as u128);
        let t = if neg { -(q as i128) } else { q as i128 };
        Unit { ticks: t }
    }

    /// The quotient of the two raw byte quantities, rounded to the nearest
    /// tick (halves away from zero). The divisor must not be zero, and the
    /// result must stay within the representable range.
    pub fn divide(self, rhs: Unit) -> (r: Unit)
        requires
            rhs@ != 0,
            -PROD_MAX <= self@ * (FP_DEN as int) <= PROD_MAX,
            -FP_MAX <= rdiv(self@ * (FP_DEN as int), rhs@) <= FP_MAX,
        ensures
            r@ == rdiv(self@ * (FP_DEN as int), rhs@),
    {
        proof {
            use_type_invariant(&self);
            use_type_invariant(&rhs);
        }
        let neg = (self.ticks < 0) != (rhs.ticks < 0);
        let ma = if self.ticks < 0 {
            (-self.ticks) as u128
        } else {
            self.ticks as u128
        };
        let mb = if rhs.ticks < 0 {
            (-rhs.ticks) as u128
        } else {
            rhs.ticks as u128
        };
        proof {
            assert((ma as int) * (FP_DEN as int) == abs_int(self@ * (FP_DEN as int)))
                by (nonlinear_arith)
                requires
                    ma as int == abs_int(self@),
            ;
        }
        let p = (ma as u128) * (FP_DEN as u128);
        let q = rdiv_u128(p, mb as u128);
        let t = if neg { -(q as i128) } else { q as i128 };
        Unit { ticks: t }
    }

    /// In-place sum: afterwards `self` holds what `self.add(rhs)` returns.
    pub fn add_assign(&mut self, rhs: Unit)
        requires
            -FP_MAX <= old(self)@ + rhs@ <= FP_MAX,
        ensures
            final(self)@ == old(self)@ + rhs@,
    {
        let cur = *self;
        *self = cur.add(rhs);
    }

    /// In-place difference: afterwards `self` holds what
    /// `self.subtract(rhs)` returns.
    pub fn sub_assign(&mut self, rhs: Unit)
        requires
            -FP_MAX <= old(self)@ - rhs@ <= FP_MAX,
        ensures
            final(self)@ == old(self)@ - rhs@,
    {
        let cur = *self;
        *self = cur.subtract(rhs);
    }

    /// In-place product: afterwards `self` holds what
    /// `self.multiply(rhs)` returns.
    pub fn mul_assign(&mut self, rhs: Unit)
        requires
            -PROD_MAX <= old(self)@ * rhs@ <= PROD_MAX,
        ensures
            final(self)@ == rdiv(old(self)@ * rhs@, FP_DEN as int),
    {
        let cur = *self;
        *self = cur.multiply(rhs);
    }

    /// In-place quotient: afterwards `self` holds what
    /// `self.divide(rhs)` returns.
    pub fn div_assign(&mut self, rhs: Unit)
        requires
            rhs@ != 0,
            -PROD_MAX <= old(self)@ * (FP_DEN as int) <= PROD_MAX,
            -FP_MAX <= rdiv(old(self)@ * (FP_DEN as int), rhs@) <= FP_MAX,
        ensures
            final(self)@ == rdiv(old(self)@ * (FP_DEN as int), rhs@),
    {
        let cur = *self;
        *self = cur.divide(rhs);
    }
}

impl Default for Unit {
    /// The empty quantity: zero bytes.
    fn default() -> (r: Unit)
        ensures
            r@ == 0,
    {
        Unit { ticks: 0 }
    }
}

/// Construction from a scale and reading back whole bytes round-trips:
/// a unit built from `v` kilobytes holds exactly `v * 2^10` bytes, and so
/// on up the scales. The multiplications below are the views that the
/// constructors' contracts give; `div_trunc(.., FP_DEN)` is what
/// `as_bytes` returns.
pub proof fn lemma_scale_round_trip(v: int)
    ensures
        div_trunc(v * (FP_DEN as int), FP_DEN as int) == v,
        div_trunc(v * (BYTES_PER_KB as int) * (FP_DEN as int), FP_DEN as int) == v * (
        BYTES_PER_KB as int),
        div_trunc(v * (BYTES_PER_MB as int) * (FP_DEN as int), FP_DEN as int) == v * (
        BYTES_PER_MB as int),
        div_trunc(v * (BYTES_PER_GB as int) * (FP_DEN as int), FP_DEN as int) == v * (
        BYTES_PER_GB as int),
        div_trunc(v * (BYTES_PER_TB as int) * (FP_DEN as int), FP_DEN as int) == v * (
        BYTES_PER_TB as int),
{
    lemma_ticks_round_trip(v);
    lemma_ticks_round_trip(v * (BYTES_PER_KB as int));
    lemma_ticks_round_trip(v * (BYTES_PER_MB as int));
    lemma_ticks_round_trip(v * (BYTES_PER_GB as int));
    lemma_ticks_round_trip(v * (BYTES_PER_TB as int));
}

/// A whole number of bytes stored in ticks reads back unchanged.
proof fn lemma_ticks_round_trip(k: int)
    ensures
        div_trunc(k * (FP_DEN as int), FP_DEN as int) == k,
{
    let d = FP_DEN as int;
    if k >= 0 {
        lemma_div_multiples_vanish(k, d);
        assert(d * k == k * d);
    } else {
        lemma_div_multiples_vanish(-k, d);
        assert(d * (-k) == -(k * d));
    }
}

/// For a positive divisor the quotient of magnitudes stays within the
/// dividend's magnitude.
proof fn lemma_div_bound_pos(a: int, b: int)
    requires
        a >= 0,
        b >= 1,
    ensures
        0 <= a / b <= a,
{
    lemma_fundamental_div_mod(a, b);
    assert(0 <= a / b <= a) by (nonlinear_arith)
        requires
            a >= 0,
            b >= 1,
            a == b * (a / b) + a % b,
            0 <= a % b < b,
    ;
}

/// When the divisor divides the dividend, truncating division is exact.
proof fn lemma_exact_div(a: int, b: int)
    requires
        b >= 1,
        a % b == 0,
    ensures
        div_trunc(a, b) * b == a,
{
    lemma_fundamental_div_mod(a, b);
    if a >= 0 {
        assert(a / b * b == a) by (nonlinear_arith)
            requires
                a == b * (a / b) + a % b,
                a % b == 0,
        ;
    } else {
        let q = a / b;
        assert(-a == b * (-q) + 0) by (nonlinear_arith)
            requires
                a == b * q,
        ;
        lemma_fundamental_div_mod_converse(-a, b, -q, 0);
        assert((-((-a) / b)) * b == a) by (nonlinear_arith)
            requires
                (-a) / b == -q,
                a == b * q,
        ;
    }
}

} // verus!
