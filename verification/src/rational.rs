//! Exact rational arithmetic on 64-bit numerator/denominator pairs.
//!
//! Every value is kept in lowest terms with a positive denominator, so
//! that equal values have equal representations.  All arithmetic is done
//! in 128-bit intermediates and the result is reduced back to 64 bits;
//! an operation whose reduced result does not fit reports `None` instead
//! of overflowing.

use vstd::arithmetic::div_mod::{
    lemma_div_by_self, lemma_div_is_ordered, lemma_div_multiples_vanish,
    lemma_div_multiples_vanish_fancy, lemma_div_nonincreasing, lemma_div_pos_is_pos,
    lemma_fundamental_div_mod, lemma_fundamental_div_mod_converse_div,
    lemma_fundamental_div_mod_converse_mod,
    lemma_mod_division_less_than_divisor,
};
use vstd::prelude::*;

verus! {

/// Greatest common divisor by Euclid's algorithm.
pub open spec fn gcd_nat(a: nat, b: nat) -> nat
    decreases b,
{
    if b == 0 {
        a
    } else {
        gcd_nat(b, a % b)
    }
}

/// Absolute value of an integer.
pub open spec fn iabs(x: int) -> int {
    if x < 0 {
        -x
    } else {
        x
    }
}

/// `f` divides `x`.
pub open spec fn divides(f: int, x: int) -> bool {
    exists|k: int| x == #[trigger] (f * k)
}

/// A mathematical rational number, as an integer pair.  The pair is not
/// required to be in lowest terms; value equality is `veq`.
pub ghost struct Rat {
    pub n: int,
    pub d: int,
}

impl Rat {
    /// The denominator is positive.
    pub open spec fn wf(self) -> bool {
        self.d >= 1
    }

    /// Value equality by cross-multiplication.
    pub open spec fn veq(self, other: Rat) -> bool {
        self.n * other.d == other.n * self.d
    }

    pub open spec fn lt(self, other: Rat) -> bool {
        self.n * other.d < other.n * self.d
    }

    pub open spec fn le(self, other: Rat) -> bool {
        self.n * other.d <= other.n * self.d
    }

    pub open spec fn add(self, other: Rat) -> Rat {
        Rat { n: self.n * other.d + other.n * self.d, d: self.d * other.d }
    }

    pub open spec fn sub(self, other: Rat) -> Rat {
        Rat { n: self.n * other.d - other.n * self.d, d: self.d * other.d }
    }

    pub open spec fn mul(self, other: Rat) -> Rat {
        Rat { n: self.n * other.n, d: self.d * other.d }
    }

    /// Division; meaningful only when `other.n != 0`.
    pub open spec fn div(self, other: Rat) -> Rat {
        if other.n < 0 {
            Rat { n: self.n * -other.d, d: self.d * -other.n }
        } else {
            Rat { n: self.n * other.d, d: self.d * other.n }
        }
    }

    pub open spec fn neg(self) -> Rat {
        Rat { n: -self.n, d: self.d }
    }

    pub open spec fn abs_val(self) -> Rat {
        Rat { n: iabs(self.n), d: self.d }
    }

    pub open spec fn from_int(i: int) -> Rat {
        Rat { n: i, d: 1 }
    }

    pub open spec fn is_zero(self) -> bool {
        self.n == 0
    }

    pub open spec fn is_neg(self) -> bool {
        self.n < 0
    }

    /// The value is a whole number.
    pub open spec fn is_int(self) -> bool {
        self.n % self.d == 0
    }

    /// Floor of the value (Euclidean division by the positive denominator).
    pub open spec fn floor(self) -> int {
        self.n / self.d
    }

    /// Nearest integer, with halves rounded away from zero.
    pub open spec fn round(self) -> int {
        let q = self.n / self.d;
        let r = self.n % self.d;
        if 2 * r > self.d || (2 * r == self.d && self.n >= 0) {
            q + 1
        } else {
            q
        }
    }
}

/// Greatest common divisor of the magnitudes of an integer pair.
pub open spec fn pair_gcd(n: int, d: int) -> int {
    gcd_nat(iabs(n) as nat, iabs(d) as nat) as int
}

/// The pair is in lowest terms.
pub open spec fn is_reduced(r: Rat) -> bool {
    pair_gcd(r.n, r.d) == 1
}

/// The unique lowest-terms form of `n / d` with a positive denominator
/// (meaningful only for `d != 0`).
pub open spec fn reduced_of(n: int, d: int) -> Rat {
    let g = pair_gcd(n, d);
    if d < 0 {
        Rat { n: (-n) / g, d: (-d) / g }
    } else {
        Rat { n: n / g, d: d / g }
    }
}

/// `x` is representable as an `i64` with a representable negation.
pub open spec fn fits(x: int) -> bool {
    -0x7fff_ffff_ffff_ffff <= x <= 0x7fff_ffff_ffff_ffff
}

/// A well-formed 64-bit rational: lowest terms, positive denominator,
/// and both parts (and the numerator's negation) representable.
pub open spec fn rat_wf64(r: Rat) -> bool {
    r.d >= 1 && is_reduced(r) && fits(r.n) && fits(r.d)
}

/// Both parts of the reduced form of `n / d` fit in an `i64`.
pub open spec fn reduced_fits(n: int, d: int) -> bool {
    fits(reduced_of(n, d).n) && fits(reduced_of(n, d).d)
}

/// Both parts of the reduced form of `n / d` survive a narrowing cast to
/// `i64` (the numerator may be `i64::MIN` here, unlike in `reduced_fits`).
pub open spec fn reduced_narrows(n: int, d: int) -> bool {
    i64::MIN <= reduced_of(n, d).n <= i64::MAX && reduced_of(n, d).d <= i64::MAX
}

proof fn lemma_gcd_divides(a: nat, b: nat)
    ensures
        divides(gcd_nat(a, b) as int, a as int),
        divides(gcd_nat(a, b) as int, b as int),
    decreases b,
{
    if b == 0 {
        assert(a as int == gcd_nat(a, 0) as int * 1);
        assert(b as int == gcd_nat(a, 0) as int * 0);
    } else {
        lemma_gcd_divides(b, a % b);
        let g = gcd_nat(b, a % b) as int;
        let k1 = choose|k: int| b as int == #[trigger] (g * k);
        let k2 = choose|k: int| (a % b) as int == #[trigger] (g * k);
        lemma_fundamental_div_mod(a as int, b as int);
        assert(a as int == b as int * (a as int / b as int) + (a as int % b as int));
        assert(a as int == g * (k1 * (a as int / b as int) + k2)) by (nonlinear_arith)
            requires
                a as int == b as int * (a as int / b as int) + (a as int % b as int),
                b as int == g * k1,
                (a % b) as int == g * k2,
        {
        }
    }
}

proof fn lemma_gcd_pos(a: nat, b: nat)
    requires
        a > 0 || b > 0,
    ensures
        gcd_nat(a, b) >= 1,
    decreases b,
{
    if b > 0 {
        lemma_gcd_pos(b, a % b);
    }
}

proof fn lemma_gcd_greatest(a: nat, b: nat, c: int)
    requires
        divides(c, a as int),
        divides(c, b as int),
    ensures
        divides(c, gcd_nat(a, b) as int),
    decreases b,
{
    if b == 0 {
    } else {
        let k1 = choose|k: int| a as int == #[trigger] (c * k);
        let k2 = choose|k: int| b as int == #[trigger] (c * k);
        lemma_fundamental_div_mod(a as int, b as int);
        let q = a as int / b as int;
        assert((a % b) as int == c * (k1 - k2 * q)) by (nonlinear_arith)
            requires
                a as int == b as int * q + (a % b) as int,
                a as int == c * k1,
                b as int == c * k2,
        {
        }
        lemma_gcd_greatest(b, a % b, c);
    }
}

/// A product of values bounded in magnitude is bounded by the product of
/// the bounds.
pub proof fn lemma_mul_abs_bound(a: int, b: int, ma: int, mb: int)
    requires
        iabs(a) <= ma,
        iabs(b) <= mb,
    ensures
        iabs(a * b) <= ma * mb,
    decreases 0int,
{
    assert(iabs(a * b) <= ma * mb) by (nonlinear_arith)
        requires
            iabs(a) <= ma,
            iabs(b) <= mb,
    {
    }
}

/// Value equality is symmetric and transitive over well-formed pairs.
pub proof fn lemma_veq_trans(a: Rat, b: Rat, c: Rat)
    requires
        a.wf(),
        b.wf(),
        c.wf(),
        a.veq(b),
        b.veq(c),
    ensures
        a.veq(c),
{
    assert(a.n * c.d == c.n * a.d) by (nonlinear_arith)
        requires
            a.n * b.d == b.n * a.d,
            b.n * c.d == c.n * b.d,
            a.d >= 1,
            b.d >= 1,
            c.d >= 1,
    {
    }
}

/// Floor, rounding, integrality and sign are determined by the value of
/// a pair, not its representation.
pub proof fn lemma_veq_determines(a: Rat, b: Rat)
    requires
        a.wf(),
        b.wf(),
        a.veq(b),
    ensures
        a.floor() == b.floor(),
        a.round() == b.round(),
        a.is_int() == b.is_int(),
        a.is_neg() == b.is_neg(),
        a.is_zero() == b.is_zero(),
{
    let q = a.floor();
    let ra = a.n % a.d;
    let rb = b.n % b.d;
    lemma_fundamental_div_mod(a.n, a.d);
    lemma_mod_division_less_than_divisor(a.n, a.d);
    lemma_fundamental_div_mod(b.n, b.d);
    lemma_mod_division_less_than_divisor(b.n, b.d);
    assert(b.floor() == q) by {
        assert(b.d * q <= b.n && b.n < b.d * (q + 1)) by (nonlinear_arith)
            requires
                a.n == a.d * q + ra,
                0 <= ra < a.d,
                a.n * b.d == b.n * a.d,
                a.d >= 1,
                b.d >= 1,
        {
        }
        lemma_div_is_ordered(b.d * q, b.n, b.d);
        lemma_div_multiples_vanish(q, b.d);
        assert(b.n <= b.d * q + (b.d - 1)) by (nonlinear_arith)
            requires
                b.n < b.d * (q + 1),
        {
        }
        lemma_div_is_ordered(b.n, b.d * q + (b.d - 1), b.d);
        lemma_div_multiples_vanish_fancy(q, b.d - 1, b.d);
    }
    assert(rb * a.d == ra * b.d) by (nonlinear_arith)
        requires
            a.n == a.d * q + ra,
            b.n == b.d * q + rb,
            a.n * b.d == b.n * a.d,
            a.d >= 1,
            b.d >= 1,
    {
    }
    assert((2 * ra > a.d <==> 2 * rb > b.d) && (2 * ra == a.d <==> 2 * rb == b.d) && (ra == 0
        <==> rb == 0)) by (nonlinear_arith)
        requires
            rb * a.d == ra * b.d,
            0 <= ra < a.d,
            0 <= rb < b.d,
            a.d >= 1,
            b.d >= 1,
    {
    }
    assert((a.n < 0 <==> b.n < 0) && (a.n == 0 <==> b.n == 0)) by (nonlinear_arith)
        requires
            a.n * b.d == b.n * a.d,
            a.d >= 1,
            b.d >= 1,
    {
    }
}

/// Multiplication respects value equality.
pub proof fn lemma_veq_mul_congruence(a: Rat, a2: Rat, b: Rat)
    requires
        a.wf(),
        a2.wf(),
        b.wf(),
        a.veq(a2),
    ensures
        a.mul(b).veq(a2.mul(b)),
{
    assert((a.n * b.n) * (a2.d * b.d) == (a2.n * b.n) * (a.d * b.d)) by (nonlinear_arith)
        requires
            a.n * a2.d == a2.n * a.d,
    {
    }
}

/// Negating the numerator negates the floor-and-round pair exactly, and
/// keeps integrality.
pub proof fn lemma_rat_neg_round(r: Rat)
    requires
        r.wf(),
    ensures
        r.neg().round() == -r.round(),
        r.neg().is_int() <==> r.is_int(),
        r.abs_val().round() == iabs(r.round()),
{
    let q = r.n / r.d;
    let rm = r.n % r.d;
    lemma_fundamental_div_mod(r.n, r.d);
    lemma_mod_division_less_than_divisor(r.n, r.d);
    if rm == 0 {
        assert(-r.n == (-q) * r.d + 0) by (nonlinear_arith)
            requires
                r.n == r.d * q + rm,
                rm == 0,
        {
        }
        lemma_fundamental_div_mod_converse_div(-r.n, r.d, -q, 0);
        lemma_fundamental_div_mod_converse_mod(-r.n, r.d, -q, 0);
    } else {
        assert(-r.n == (-q - 1) * r.d + (r.d - rm)) by (nonlinear_arith)
            requires
                r.n == r.d * q + rm,
        {
        }
        lemma_fundamental_div_mod_converse_div(-r.n, r.d, -q - 1, r.d - rm);
        lemma_fundamental_div_mod_converse_mod(-r.n, r.d, -q - 1, r.d - rm);
        assert(r.n != 0);
    }
    lemma_round_abs_bound(r);
    lemma_round_abs_bound(r.neg());
}

/// Rounding never grows the magnitude beyond the numerator, and keeps
/// the sign of a non-negative value.
pub proof fn lemma_round_abs_bound(r: Rat)
    requires
        r.wf(),
    ensures
        iabs(r.round()) <= iabs(r.n),
        r.n >= 0 ==> 0 <= r.round(),
        r.n < 0 ==> r.round() <= 0,
{
    let q = r.n / r.d;
    let rm = r.n % r.d;
    lemma_fundamental_div_mod(r.n, r.d);
    lemma_mod_division_less_than_divisor(r.n, r.d);
    if r.d == 1 {
        assert(rm == 0);
        lemma_div_multiples_vanish(r.n, 1);
        assert(q == r.n);
    } else {
        if r.n >= 0 {
            lemma_div_nonincreasing(r.n, r.d);
            lemma_div_pos_is_pos(r.n, r.d);
            if 2 * rm > r.d || 2 * rm == r.d {
                assert(q + 1 <= r.n) by (nonlinear_arith)
                    requires
                        r.n == r.d * q + rm,
                        r.d >= 2,
                        2 * rm >= r.d,
                        0 <= rm < r.d,
                        q >= 0,
                {
                }
            }
        } else {
            assert(q <= -1) by (nonlinear_arith)
                requires
                    r.n == r.d * q + rm,
                    r.d >= 2,
                    0 <= rm < r.d,
                    r.n < 0,
            {
            }
            assert(q >= r.n) by (nonlinear_arith)
                requires
                    r.n == r.d * q + rm,
                    r.d >= 2,
                    0 <= rm < r.d,
                    q <= -1,
            {
            }
        }
    }
}

/// From `divides(g, x)` with `g >= 1`: the quotient recovers `x`.
proof fn lemma_div_exact(x: int, g: int)
    requires
        g >= 1,
        divides(g, x),
    ensures
        g * (x / g) == x,
{
    let k = choose|k: int| x == #[trigger] (g * k);
    lemma_div_multiples_vanish(k, g);
}

/// Core facts about the lowest-terms form of a pair.
pub proof fn lemma_reduced_of(n: int, d: int)
    requires
        d != 0,
    ensures
        reduced_of(n, d).d >= 1,
        reduced_of(n, d).n * d == n * reduced_of(n, d).d,
        is_reduced(reduced_of(n, d)),
        iabs(reduced_of(n, d).n) <= iabs(n),
        reduced_of(n, d).d <= iabs(d),
        reduced_of(n, d).n == 0 <==> n == 0,
        n == 0 ==> reduced_of(n, d) == (Rat { n: 0, d: 1 }),
        reduced_of(n, d).n > 0 <==> n * d > 0,
        reduced_of(n, d).n < 0 <==> n * d < 0,
{
    let g = pair_gcd(n, d);
    let an = iabs(n);
    let ad = iabs(d);
    lemma_gcd_pos(an as nat, ad as nat);
    lemma_gcd_divides(an as nat, ad as nat);
    assert(g >= 1);
    // g divides the signed values as well.
    let ka = choose|k: int| an == #[trigger] (g * k);
    let kd = choose|k: int| ad == #[trigger] (g * k);
    assert(ka >= 0 && kd >= 1) by (nonlinear_arith)
        requires
            g >= 1,
            an == g * ka,
            ad == g * kd,
            an >= 0,
            ad >= 1,
    {
    }
    assert(-an == g * (-ka)) by (nonlinear_arith)
        requires
            an == g * ka,
    {
    }
    lemma_div_multiples_vanish(ka, g);
    lemma_div_multiples_vanish(-ka, g);
    lemma_div_multiples_vanish(kd, g);
    assert(an / g == ka && (-an) / g == -ka && ad / g == kd);
    // Identify the signed quotients.
    let q = reduced_of(n, d);
    assert(q.d == kd && iabs(q.n) == ka && (q.n == ka || q.n == -ka)) by {
        if n >= 0 {
            assert(an == n);
        } else {
            assert(an == -n);
        }
        if d >= 0 {
            assert(ad == d);
        } else {
            assert(ad == -d);
        }
    }
    // Value equality.
    assert(q.n * d == n * q.d) by (nonlinear_arith)
        requires
            an == g * ka,
            ad == g * kd,
            q.d == kd,
            (n >= 0 ==> an == n) && (n < 0 ==> an == -n),
            (d >= 0 ==> ad == d) && (d < 0 ==> ad == -d),
            (d >= 0 ==> q.n == if n >= 0 { ka } else { -ka }),
            (d < 0 ==> q.n == if n >= 0 { -ka } else { ka }),
    {
    }
    // Bounds and the zero case.
    assert(ka <= an && kd <= ad && (ka == 0 <==> an == 0)) by (nonlinear_arith)
        requires
            g >= 1,
            an == g * ka,
            ad == g * kd,
            ka >= 0,
            kd >= 1,
    {
    }
    // Lowest terms.
    let h = gcd_nat(ka as nat, kd as nat) as int;
    lemma_gcd_pos(ka as nat, kd as nat);
    lemma_gcd_divides(ka as nat, kd as nat);
    assert(h >= 1);
    let ha = choose|k: int| ka == #[trigger] (h * k);
    let hd = choose|k: int| kd == #[trigger] (h * k);
    assert(an == (g * h) * ha && ad == (g * h) * hd) by (nonlinear_arith)
        requires
            an == g * ka,
            ad == g * kd,
            ka == h * ha,
            kd == h * hd,
    {
    }
    assert(divides(g * h, an) && divides(g * h, ad));
    lemma_gcd_greatest(an as nat, ad as nat, g * h);
    let m = choose|k: int| g == #[trigger] ((g * h) * k);
    assert(h == 1) by (nonlinear_arith)
        requires
            g >= 1,
            h >= 1,
            g == (g * h) * m,
    {
    }
    assert(pair_gcd(q.n, q.d) == 1);
    // Sign correspondence.
    assert((q.n > 0 <==> n * d > 0) && (q.n < 0 <==> n * d < 0)) by (nonlinear_arith)
        requires
            q.n * d == n * q.d,
            q.d >= 1,
            d != 0,
    {
    }
    // Zero behaviour.
    if n == 0 {
        assert(gcd_nat(0, ad as nat) == ad as nat) by {
            assert(gcd_nat(0, ad as nat) == gcd_nat(ad as nat, 0)) by {
                lemma_mod_division_less_than_divisor(0, ad);
                assert((0 as nat) % (ad as nat) == 0);
            }
        }
        assert(g == ad);
        lemma_div_by_self(ad);
        assert(q.d == 1);
        assert(q.n == 0);
    }
}

/// Relies on `num::rational::Ratio::<i128>::new`, which reduces the
/// fraction to lowest terms with a positive denominator (and panics only
/// for a zero denominator or magnitudes at `i128::MIN`, which the
/// preconditions exclude), and on `i64::try_from` for the narrowing of
/// the reduced parts.
#[verifier::external_body]
fn reduce128(n: i128, d: i128) -> (r: Option<(i64, i64)>)
    requires
        d != 0,
        n > i128::MIN,
        d > i128::MIN,
    ensures
        reduced_narrows(n as int, d as int) ==> r == Some(
            (reduced_of(n as int, d as int).n as i64, reduced_of(n as int, d as int).d as i64),
        ),
        !reduced_narrows(n as int, d as int) ==> r == None::<(i64, i64)>,
{
    let q = num::rational::Ratio::<i128>::new(n, d);
    match (i64::try_from(*q.numer()), i64::try_from(*q.denom())) {
        (Ok(a), Ok(b)) => Some((a, b)),
        _ => None,
    }
}

/// An exact rational held in lowest terms with a positive denominator.
#[derive(Clone, Copy, Debug, PartialEq, Eq, Structural)]
pub struct Rational {
    n: i64,
    d: i64,
}

impl View for Rational {
    type V = Rat;

    closed spec fn view(&self) -> Rat {
        Rat { n: self.n as int, d: self.d as int }
    }
}

impl Rational {
    /// Lowest terms, positive denominator, and a negatable numerator.
    pub open spec fn wf(self) -> bool {
        rat_wf64(self@)
    }

    /// Wrap a pair already known to be in lowest terms.
    pub(crate) fn from_reduced_parts(n: i64, d: i64) -> (r: Rational)
        requires
            d >= 1,
            n > i64::MIN,
            is_reduced(Rat { n: n as int, d: d as int }),
        ensures
            r.wf(),
            r@ == (Rat { n: n as int, d: d as int }),
    {
        Rational { n, d }
    }

    /// Reduce a 128-bit pair down to a well-formed `Rational`.
    pub(crate) fn from_reduced128(n: i128, d: i128) -> (r: Option<Rational>)
        requires
            d != 0,
            n > i128::MIN,
            d > i128::MIN,
        ensures
            r matches Some(q) ==> q.wf() && q@ == reduced_of(n as int, d as int),
            r.is_some() <==> reduced_fits(n as int, d as int),
    {
        proof {
            lemma_reduced_of(n as int, d as int);
        }
        match reduce128(n, d) {
            Some((rn, rd)) => {
                if rn == i64::MIN {
                    None
                } else {
                    Some(Rational { n: rn, d: rd })
                }
            },
            None => None,
        }
    }

    /// Construct `n / d` in lowest terms; `None` when the reduced form
    /// does not fit in 64 bits.
    pub fn new(n: i64, d: i64) -> (r: Option<Rational>)
        requires
            d != 0,
        ensures
            r matches Some(q) ==> q.wf() && q@ == reduced_of(n as int, d as int),
            r.is_some() <==> reduced_fits(n as int, d as int),
    {
        Self::from_reduced128(n as i128, d as i128)
    }

    /// The rational `i / 1`.
    pub fn from_int(i: i64) -> (r: Rational)
        requires
            i > i64::MIN,
        ensures
            r.wf(),
            r@ == Rat::from_int(i as int),
    {
        proof {
            lemma_gcd_pos(iabs(i as int) as nat, 1);
            lemma_gcd_divides(iabs(i as int) as nat, 1);
            let g = pair_gcd(i as int, 1);
            let k = choose|k: int| 1 == #[trigger] (g * k);
            assert(g == 1) by (nonlinear_arith)
                requires
                    g >= 1,
                    1 == g * k,
            {
            }
        }
        Rational { n: i, d: 1 }
    }

    pub fn numer(&self) -> (r: i64)
        ensures
            r as int == self@.n,
    {
        self.n
    }

    pub fn denom(&self) -> (r: i64)
        ensures
            r as int == self@.d,
    {
        self.d
    }

    /// Bound the four cross products of two well-formed rationals.
    proof fn lemma_cross_bounds(self, other: Rational)
        requires
            self.wf(),
            other.wf(),
        ensures
            iabs(self@.n * other@.d) <= 0x3fff_ffff_ffff_ffff_8000_0000_0000_0001,
            iabs(other@.n * self@.d) <= 0x3fff_ffff_ffff_ffff_8000_0000_0000_0001,
            iabs(self@.n * other@.n) <= 0x3fff_ffff_ffff_ffff_8000_0000_0000_0001,
            iabs(self@.d * other@.d) <= 0x3fff_ffff_ffff_ffff_8000_0000_0000_0001,
            self@.d * other@.d >= 1,
    {
        let m = 0x7fff_ffff_ffff_ffffint;
        lemma_mul_abs_bound(self@.n, other@.d, m, m);
        lemma_mul_abs_bound(other@.n, self@.d, m, m);
        lemma_mul_abs_bound(self@.n, other@.n, m, m);
        lemma_mul_abs_bound(self@.d, other@.d, m, m);
        assert(self@.d * other@.d >= 1) by (nonlinear_arith)
            requires
                self@.d >= 1,
                other@.d >= 1,
        {
        }
    }

    /// Exact sum, reduced; `None` when the reduced sum does not fit.
    pub fn checked_add(self, other: Rational) -> (r: Option<Rational>)
        requires
            self.wf(),
            other.wf(),
        ensures
            r matches Some(q) ==> q.wf() && q@ == reduced_of(
                self@.add(other@).n,
                self@.add(other@).d,
            ) && q@.veq(self@.add(other@)),
            r.is_some() <==> reduced_fits(self@.add(other@).n, self@.add(other@).d),
    {
        proof {
            self.lemma_cross_bounds(other);
        }
        let nn: i128 = (self.n as i128) * (other.d as i128) + (other.n as i128) * (self.d as i128);
        let dd: i128 = (self.d as i128) * (other.d as i128);
        proof {
            lemma_reduced_of(nn as int, dd as int);
        }
        Self::from_reduced128(nn, dd)
    }

    /// Exact difference, reduced; `None` when the result does not fit.
    pub fn checked_sub(self, other: Rational) -> (r: Option<Rational>)
        requires
            self.wf(),
            other.wf(),
        ensures
            r matches Some(q) ==> q.wf() && q@ == reduced_of(
                self@.sub(other@).n,
                self@.sub(other@).d,
            ) && q@.veq(self@.sub(other@)),
            r.is_some() <==> reduced_fits(self@.sub(other@).n, self@.sub(other@).d),
    {
        proof {
            self.lemma_cross_bounds(other);
        }
        let nn: i128 = (self.n as i128) * (other.d as i128) - (other.n as i128) * (self.d as i128);
        let dd: i128 = (self.d as i128) * (other.d as i128);
        proof {
            lemma_reduced_of(nn as int, dd as int);
        }
        Self::from_reduced128(nn, dd)
    }

    /// Exact product, reduced; `None` when the result does not fit.
    pub fn checked_mul(self, other: Rational) -> (r: Option<Rational>)
        requires
            self.wf(),
            other.wf(),
        ensures
            r matches Some(q) ==> q.wf() && q@ == reduced_of(
                self@.mul(other@).n,
                self@.mul(other@).d,
            ) && q@.veq(self@.mul(other@)),
            r.is_some() <==> reduced_fits(self@.mul(other@).n, self@.mul(other@).d),
    {
        proof {
            self.lemma_cross_bounds(other);
        }
        let nn: i128 = (self.n as i128) * (other.n as i128);
        let dd: i128 = (self.d as i128) * (other.d as i128);
        proof {
            lemma_reduced_of(nn as int, dd as int);
        }
        Self::from_reduced128(nn, dd)
    }

    /// Exact quotient, reduced; `None` when the result does not fit.
    pub fn checked_div(self, other: Rational) -> (r: Option<Rational>)
        requires
            self.wf(),
            other.wf(),
            !other@.is_zero(),
        ensures
            r matches Some(q) ==> q.wf() && q@ == reduced_of(
                self@.div(other@).n,
                self@.div(other@).d,
            ) && q@.veq(self@.div(other@)),
            r.is_some() <==> reduced_fits(self@.div(other@).n, self@.div(other@).d),
    {
        proof {
            self.lemma_cross_bounds(other);
            lemma_mul_abs_bound(self@.n, -other@.d, i64::MAX as int, i64::MAX as int);
            lemma_mul_abs_bound(self@.d, -other@.n, i64::MAX as int, i64::MAX as int);
            assert(other@.n < 0 ==> self@.d * -other@.n >= 1) by (nonlinear_arith)
                requires
                    self@.d >= 1,
            {
            }
            assert(other@.n > 0 ==> self@.d * other@.n >= 1) by (nonlinear_arith)
                requires
                    self@.d >= 1,
            {
            }
        }
        let nn: i128;
        let dd: i128;
        if other.n < 0 {
            nn = (self.n as i128) * (-(other.d as i128));
            dd = (self.d as i128) * (-(other.n as i128));
        } else {
            nn = (self.n as i128) * (other.d as i128);
            dd = (self.d as i128) * (other.n as i128);
        }
        proof {
            lemma_reduced_of(nn as int, dd as int);
        }
        Self::from_reduced128(nn, dd)
    }

    /// Exact negation; total because the numerator's negation fits.
    pub fn negate(self) -> (r: Rational)
        requires
            self.wf(),
        ensures
            r.wf(),
            r@ == self@.neg(),
    {
        Rational { n: -self.n, d: self.d }
    }

    /// Absolute value.
    pub fn abs_rational(self) -> (r: Rational)
        requires
            self.wf(),
        ensures
            r.wf(),
            r@ == self@.abs_val(),
    {
        if self.n < 0 {
            Rational { n: -self.n, d: self.d }
        } else {
            self
        }
    }

    /// Value comparison: `self < other`.
    pub fn lt(&self, other: &Rational) -> (r: bool)
        ensures
            r == self@.lt(other@),
    {
        proof {
            lemma_mul_abs_bound(self@.n, other@.d, 0x8000_0000_0000_0000, 0x8000_0000_0000_0000);
            lemma_mul_abs_bound(other@.n, self@.d, 0x8000_0000_0000_0000, 0x8000_0000_0000_0000);
        }
        (self.n as i128) * (other.d as i128) < (other.n as i128) * (self.d as i128)
    }

    /// Value comparison: `self <= other`.
    pub fn le(&self, other: &Rational) -> (r: bool)
        ensures
            r == self@.le(other@),
    {
        proof {
            lemma_mul_abs_bound(self@.n, other@.d, 0x8000_0000_0000_0000, 0x8000_0000_0000_0000);
            lemma_mul_abs_bound(other@.n, self@.d, 0x8000_0000_0000_0000, 0x8000_0000_0000_0000);
        }
        (self.n as i128) * (other.d as i128) <= (other.n as i128) * (self.d as i128)
    }

    /// Value equality test.
    pub fn eq_val(&self, other: &Rational) -> (r: bool)
        ensures
            r == self@.veq(other@),
    {
        proof {
            lemma_mul_abs_bound(self@.n, other@.d, 0x8000_0000_0000_0000, 0x8000_0000_0000_0000);
            lemma_mul_abs_bound(other@.n, self@.d, 0x8000_0000_0000_0000, 0x8000_0000_0000_0000);
        }
        (self.n as i128) * (other.d as i128) == (other.n as i128) * (self.d as i128)
    }

    pub fn is_zero(&self) -> (r: bool)
        ensures
            r == self@.is_zero(),
    {
        self.n == 0
    }

    pub fn is_negative(&self) -> (r: bool)
        ensures
            r == self@.is_neg(),
    {
        self.n < 0
    }

    /// Whether the value is a whole number; in lowest terms this is a
    /// check of the denominator.
    pub fn is_integer(&self) -> (r: bool)
        requires
            self.wf(),
        ensures
            r == self@.is_int(),
            r ==> self@.d == 1,
    {
        proof {
            if self.d == 1 {
                lemma_mod_division_less_than_divisor(self@.n, 1);
            } else if self@.n % self@.d == 0 {
                lemma_fundamental_div_mod(self@.n, self@.d);
                let q = self@.n / self@.d;
                assert(iabs(self@.n) == self@.d * iabs(q)) by (nonlinear_arith)
                    requires
                        self@.n == self@.d * q,
                        self@.d >= 1,
                {
                }
                assert(divides(self@.d, iabs(self@.n)));
                assert(self@.d == self@.d * 1);
                assert(divides(self@.d, self@.d));
                lemma_gcd_greatest(iabs(self@.n) as nat, self@.d as nat, self@.d);
                let k = choose|k: int| pair_gcd(self@.n, self@.d) == #[trigger] (self@.d * k);
                assert(false) by (nonlinear_arith)
                    requires
                        1 == self@.d * k,
                        self@.d >= 2,
                {
                }
            }
        }
        self.d == 1
    }

    /// Floor of the value as an `i64`.
    pub fn floor_i64(&self) -> (r: i64)
        requires
            self.wf(),
        ensures
            r as int == self@.floor(),
    {
        if self.n >= 0 {
            let q = (self.n as u64) / (self.d as u64);
            proof {
                lemma_div_nonincreasing(self@.n, self@.d);
                lemma_div_pos_is_pos(self@.n, self@.d);
            }
            q as i64
        } else {
            let m = (-(self.n as i128)) as u64;
            let d = self.d as u64;
            let q = (m + d - 1) / d;
            proof {
                let mi = m as int;
                let di = d as int;
                lemma_fundamental_div_mod(self@.n, self@.d);
                lemma_mod_division_less_than_divisor(self@.n, self@.d);
                let fq = self@.n / self@.d;
                let fr = self@.n % self@.d;
                if fr == 0 {
                    assert(mi + di - 1 == (-fq) * di + (di - 1)) by (nonlinear_arith)
                        requires
                            self@.n == di * fq + fr,
                            fr == 0,
                            mi == -self@.n,
                    {
                    }
                    lemma_fundamental_div_mod_converse_div(mi + di - 1, di, -fq, di - 1);
                } else {
                    assert(mi + di - 1 == (-fq) * di + (di - fr - 1)) by (nonlinear_arith)
                        requires
                            self@.n == di * fq + fr,
                            mi == -self@.n,
                    {
                    }
                    lemma_fundamental_div_mod_converse_div(mi + di - 1, di, -fq, di - fr - 1);
                }
                assert((mi + di - 1) / di == -fq);
                // The quotient is small enough to negate into an i64.
                assert(fq < 0);
                assert(-fq <= mi) by (nonlinear_arith)
                    requires
                        self@.n == di * fq + fr,
                        0 <= fr < di,
                        di >= 1,
                        mi == -self@.n,
                        fq < 0,
                    {
                    }
            }
            -(q as i64)
        }
    }

    /// Nearest integer as an `i64`, halves away from zero.
    pub fn round_i64(&self) -> (r: i64)
        requires
            self.wf(),
        ensures
            r as int == self@.round(),
    {
        let fl = self.floor_i64();
        proof {
            lemma_mul_abs_bound(fl as int, self@.d, 0x8000_0000_0000_0000, i64::MAX as int);
        }
        let rem: i128 = (self.n as i128) - (fl as i128) * (self.d as i128);
        proof {
            lemma_fundamental_div_mod(self@.n, self@.d);
            lemma_mod_division_less_than_divisor(self@.n, self@.d);
            assert(rem as int == self@.n % self@.d) by (nonlinear_arith)
                requires
                    self@.n == self@.d * (self@.n / self@.d) + self@.n % self@.d,
                    fl as int == self@.n / self@.d,
                    rem as int == self@.n - (fl as int) * self@.d,
            {
            }
            // When a bump happens the remainder is positive, so the
            // floor is strictly below the value's magnitude bound.
            if 2 * (rem as int) > self@.d || (2 * (rem as int) == self@.d && self@.n >= 0) {
                assert(self@.d >= 2);
                assert(fl as int + 1 <= i64::MAX as int) by (nonlinear_arith)
                    requires
                        self@.n == self@.d * (fl as int) + (rem as int),
                        0 <= (rem as int) < self@.d,
                        self@.d >= 2,
                        self@.n <= i64::MAX as int,
                        fl as int >= i64::MIN as int,
                {
                }
            }
        }
        if 2 * rem > (self.d as i128) || (2 * rem == (self.d as i128) && self.n >= 0) {
            fl + 1
        } else {
            fl
        }
    }
}


/// Numerator magnitude bound under which the 128-bit helpers operate.
pub open spec fn pair_bound() -> int {
    0x4000_0000_0000_0000_0000_0000_0000_0000
}

/// Floor of `n / d` on 128-bit operands with a positive denominator.
pub fn floor_pair(n: i128, d: i128) -> (r: i128)
    requires
        d >= 1,
        iabs(n as int) < pair_bound(),
        d < pair_bound(),
    ensures
        r as int == (Rat { n: n as int, d: d as int }).floor(),
        iabs(r as int) <= iabs(n as int),
{
    if n >= 0 {
        let q = (n as u128) / (d as u128);
        proof {
            lemma_div_nonincreasing(n as int, d as int);
            lemma_div_pos_is_pos(n as int, d as int);
        }
        q as i128
    } else {
        let m = (-n) as u128;
        let dd = d as u128;
        let q = (m + dd - 1) / dd;
        proof {
            let mi = m as int;
            let di = d as int;
            lemma_fundamental_div_mod(n as int, d as int);
            lemma_mod_division_less_than_divisor(n as int, d as int);
            let fq = (n as int) / (d as int);
            let fr = (n as int) % (d as int);
            if fr == 0 {
                assert(mi + di - 1 == (-fq) * di + (di - 1)) by (nonlinear_arith)
                    requires
                        n as int == di * fq + fr,
                        fr == 0,
                        mi == -(n as int),
                {
                }
                lemma_fundamental_div_mod_converse_div(mi + di - 1, di, -fq, di - 1);
            } else {
                assert(mi + di - 1 == (-fq) * di + (di - fr - 1)) by (nonlinear_arith)
                    requires
                        n as int == di * fq + fr,
                        mi == -(n as int),
                {
                }
                lemma_fundamental_div_mod_converse_div(mi + di - 1, di, -fq, di - fr - 1);
            }
            assert((mi + di - 1) / di == -fq);
            assert(fq < 0);
            assert(-fq <= mi) by (nonlinear_arith)
                requires
                    n as int == di * fq + fr,
                    0 <= fr < di,
                    di >= 1,
                    mi == -(n as int),
                    fq < 0,
            {
            }
        }
        -(q as i128)
    }
}

/// Nearest integer to `n / d` on 128-bit operands, halves away from zero.
pub fn round_pair(n: i128, d: i128) -> (r: i128)
    requires
        d >= 1,
        iabs(n as int) < pair_bound(),
        d < pair_bound(),
    ensures
        r as int == (Rat { n: n as int, d: d as int }).round(),
        iabs(r as int) <= iabs(n as int),
{
    let ghost v = Rat { n: n as int, d: d as int };
    proof {
        lemma_round_abs_bound(v);
    }
    let fl = floor_pair(n, d);
    proof {
        lemma_fundamental_div_mod(v.n, v.d);
        lemma_mod_division_less_than_divisor(v.n, v.d);
        assert(iabs((fl as int) * (d as int)) < pair_bound() * 2) by (nonlinear_arith)
            requires
                v.n == v.d * (fl as int) + v.n % v.d,
                0 <= v.n % v.d < v.d,
                1 <= v.d < pair_bound(),
                iabs(v.n) < pair_bound(),
                v == (Rat { n: n as int, d: d as int }),
        {
        }
    }
    let rem: i128 = n - fl * d;
    proof {
        assert(rem as int == v.n % v.d) by (nonlinear_arith)
            requires
                v.n == v.d * (v.n / v.d) + v.n % v.d,
                fl as int == v.n / v.d,
                rem as int == v.n - (fl as int) * v.d,
                v == (Rat { n: n as int, d: d as int }),
        {
        }
    }
    if 2 * rem > d || (2 * rem == d && n >= 0) {
        fl + 1
    } else {
        fl
    }
}


/// Euclid's algorithm, executable.
pub fn gcd_u64(a: u64, b: u64) -> (g: u64)
    ensures
        g as nat == gcd_nat(a as nat, b as nat),
{
    let mut x = a;
    let mut y = b;
    while y != 0
        invariant
            gcd_nat(x as nat, y as nat) == gcd_nat(a as nat, b as nat),
        decreases y,
    {
        let t = x % y;
        x = y;
        y = t;
    }
    x
}

} // verus!
