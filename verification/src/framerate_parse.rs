//! Turning framerate sources — integers, rationals, imprecise decimals
//! and text — into validated `Framerate` values.

use crate::errors::FramerateParseError;
use crate::framerate::{Framerate, Ntsc};
use crate::rational::{
    floor_pair, lemma_reduced_of, reduced_fits, reduced_of, round_pair, Rat, Rational,
};
use crate::text::{
    all_digits, all_zeros, check_digit_run, check_signed_digits, dec_val, digit_val, find_first,
    first_idx, check_zero_run, parse_signed, signed_digits, signed_mag, signed_neg, signed_val,
};
use vstd::prelude::*;
use vstd::string::StrSliceExecFns;

verus! {

/// The result of the two framerate constructors.
pub type FramerateParseResult = Result<Framerate, FramerateParseError>;

/// A value a framerate can be built from.  A `Decimal` is a value that
/// is known only imprecisely (a float, measured as the exact fraction
/// `n / d`): it is accepted only for NTSC rates, which it is coerced to.
pub enum FramerateSource {
    /// A whole number of frames per second.
    Integer(i64),
    /// An imprecise value `n / d`, as a float's exact expansion.
    Decimal(i64, i64),
    /// An exact fraction `n / d`.
    Rational(i64, i64),
    /// Text holding an integer, a decimal, or an `n/d` fraction.
    Text(String),
}

/// How a framerate source is disposed of: accepted with a playback
/// value, or rejected for one of five reasons.
pub ghost enum RateOutcome {
    Accept(Rat),
    Negative,
    NtscRule,
    DropRule,
    Imprecise,
    Conversion,
}

/// Which validation rule a value breaks, if any: negative values, the
/// NTSC whole-number/denominator rule, or the drop-frame divisor rule,
/// in that order.
pub open spec fn validate_err(v: Rat, ntsc: Ntsc, is_base: bool) -> RateOutcome {
    if v.is_neg() {
        RateOutcome::Negative
    } else if ntsc == Ntsc::NotNtsc {
        RateOutcome::Accept(v)
    } else if is_base && !v.is_int() {
        RateOutcome::NtscRule
    } else if !is_base && v.d != 1001 {
        RateOutcome::NtscRule
    } else if ntsc != Ntsc::DropFrame {
        RateOutcome::Accept(v)
    } else if is_base {
        if v.floor() % 30 == 0 {
            RateOutcome::Accept(v)
        } else {
            RateOutcome::DropRule
        }
    } else {
        if (1001 * v.n) % (30000 * v.d) == 0 {
            RateOutcome::Accept(v)
        } else {
            RateOutcome::DropRule
        }
    }
}

/// Validation followed by the timebase-to-playback coercion: an NTSC
/// timebase `b` becomes the playback `b * 1000 / 1001`.
pub open spec fn rate_outcome_value(v: Rat, ntsc: Ntsc, is_base: bool) -> RateOutcome {
    match validate_err(v, ntsc, is_base) {
        RateOutcome::Accept(_) => {
            if is_base && ntsc != Ntsc::NotNtsc {
                if reduced_fits(v.floor() * 1000, 1001) {
                    RateOutcome::Accept(reduced_of(v.floor() * 1000, 1001))
                } else {
                    RateOutcome::Conversion
                }
            } else {
                RateOutcome::Accept(v)
            }
        },
        e => e,
    }
}

/// Disposition of an exact fraction source.
pub open spec fn rational_outcome(n: int, d: int, ntsc: Ntsc, is_base: bool) -> RateOutcome {
    if d == 0 {
        RateOutcome::Conversion
    } else if (n < 0 && d > 0) || (n > 0 && d < 0) {
        RateOutcome::Negative
    } else if !reduced_fits(n, d) {
        RateOutcome::Conversion
    } else {
        rate_outcome_value(reduced_of(n, d), ntsc, is_base)
    }
}

/// Disposition of an imprecise `n / d` source: rejected away from NTSC,
/// coerced to the nearest legal NTSC value otherwise.
pub open spec fn decimal_outcome(n: int, d: int, ntsc: Ntsc, is_base: bool) -> RateOutcome {
    if d == 0 {
        RateOutcome::Conversion
    } else if ntsc == Ntsc::NotNtsc {
        RateOutcome::Imprecise
    } else {
        let v = if d < 0 {
            Rat { n: -n, d: -d }
        } else {
            Rat { n: n, d: d }
        };
        if is_base {
            rate_outcome_value(v, ntsc, true)
        } else {
            let r0 = v.round();
            if reduced_fits(r0 * 1000, 1001) {
                rate_outcome_value(reduced_of(r0 * 1000, 1001), ntsc, false)
            } else {
                RateOutcome::Conversion
            }
        }
    }
}

/// Disposition of decimal text, given its sign, whole part and fraction
/// digits.  The rounding to a whole number needs only the first digit of
/// the fraction, so the fraction's length is unbounded.
pub open spec fn decimal_text_outcome(
    neg: bool,
    ip: int,
    f: Seq<char>,
    ntsc: Ntsc,
    is_base: bool,
) -> RateOutcome {
    if is_base {
        if neg && (ip > 0 || !all_zeros(f)) {
            RateOutcome::Negative
        } else if !all_zeros(f) {
            RateOutcome::NtscRule
        } else if ntsc == Ntsc::DropFrame && ip % 30 != 0 {
            RateOutcome::DropRule
        } else if reduced_fits(ip * 1000, 1001) {
            RateOutcome::Accept(reduced_of(ip * 1000, 1001))
        } else {
            RateOutcome::Conversion
        }
    } else {
        let rp = ip + if f.len() > 0 && digit_val(f[0]) >= 5 {
            1int
        } else {
            0int
        };
        let r0 = if neg {
            -rp
        } else {
            rp
        };
        if reduced_fits(r0 * 1000, 1001) {
            rate_outcome_value(reduced_of(r0 * 1000, 1001), ntsc, false)
        } else {
            RateOutcome::Conversion
        }
    }
}

/// Disposition of a text source: an `n/d` fraction, a whole number, or
/// a decimal, tried in that order.
pub open spec fn text_outcome(s: Seq<char>, ntsc: Ntsc, is_base: bool) -> RateOutcome {
    let fi = first_idx(s, '/');
    let di = first_idx(s, '.');
    if fi >= 0 {
        if signed_digits(s.take(fi)) && signed_digits(s.skip(fi + 1)) {
            if dec_val(signed_mag(s.take(fi))) <= i64::MAX && dec_val(signed_mag(s.skip(fi + 1)))
                <= i64::MAX {
                rational_outcome(signed_val(s.take(fi)), signed_val(s.skip(fi + 1)), ntsc, is_base)
            } else {
                RateOutcome::Conversion
            }
        } else {
            RateOutcome::Conversion
        }
    } else if signed_digits(s) {
        if dec_val(signed_mag(s)) <= i64::MAX {
            rational_outcome(signed_val(s), 1, ntsc, is_base)
        } else {
            RateOutcome::Conversion
        }
    } else if di >= 0 && signed_digits(s.take(di)) && di + 1 < s.len() && all_digits(
        s.skip(di + 1),
    ) {
        if ntsc == Ntsc::NotNtsc {
            RateOutcome::Imprecise
        } else if dec_val(signed_mag(s.take(di))) <= i64::MAX {
            decimal_text_outcome(
                signed_neg(s.take(di)),
                dec_val(signed_mag(s.take(di))),
                s.skip(di + 1),
                ntsc,
                is_base,
            )
        } else {
            RateOutcome::Conversion
        }
    } else {
        RateOutcome::Conversion
    }
}

/// Disposition of any framerate source.
pub open spec fn rate_outcome(src: FramerateSource, ntsc: Ntsc, is_base: bool) -> RateOutcome {
    match src {
        FramerateSource::Integer(i) => rational_outcome(i as int, 1, ntsc, is_base),
        FramerateSource::Rational(n, d) => rational_outcome(n as int, d as int, ntsc, is_base),
        FramerateSource::Decimal(n, d) => decimal_outcome(n as int, d as int, ntsc, is_base),
        FramerateSource::Text(s) => text_outcome(s@, ntsc, is_base),
    }
}

/// The constructors' results agree with the spec-level outcome: the
/// accepted playback value on success, the right error kind otherwise.
pub open spec fn outcome_matches(o: RateOutcome, ntsc: Ntsc, r: FramerateParseResult) -> bool {
    match o {
        RateOutcome::Accept(v) => r matches Ok(f) && f.wf() && f@.playback == v && f@.ntsc == ntsc,
        RateOutcome::Negative => r matches Err(e) && e is Negative,
        RateOutcome::NtscRule => r matches Err(e) && e is Ntsc,
        RateOutcome::DropRule => r matches Err(e) && e is DropFrame,
        RateOutcome::Imprecise => r matches Err(e) && e is Imprecise,
        RateOutcome::Conversion => r matches Err(e) && e is Conversion,
    }
}

/// An NTSC timebase that is a multiple of 30 coerces to a playback that
/// is a multiple of 30000/1001.
proof fn lemma_coerced_df(n: int, q: Rat)
    requires
        n >= 0,
        n % 30 == 0,
        q.n * 1001 == (n * 1000) * q.d,
        q.d >= 1,
    ensures
        (1001 * q.n) % (30000 * q.d) == 0,
{
    vstd::arithmetic::div_mod::lemma_fundamental_div_mod(n, 30);
    let k = n / 30;
    assert(1001 * q.n == (30000 * q.d) * k) by (nonlinear_arith)
        requires
            q.n * 1001 == (n * 1000) * q.d,
            n == 30 * k,
    {
    }
    vstd::arithmetic::div_mod::lemma_mod_multiples_basic(k, 30000 * q.d);
    assert((30000 * q.d) * k == k * (30000 * q.d)) by (nonlinear_arith);
    assert(30000 * q.d != 0);
}

/// Validate a reduced, well-formed value and build the rate, coercing
/// NTSC timebases to their playback speed.
fn build_validated(v: Rational, ntsc: Ntsc, is_base: bool) -> (r: FramerateParseResult)
    requires
        v.wf(),
    ensures
        outcome_matches(rate_outcome_value(v@, ntsc, is_base), ntsc, r),
{
    if v.is_negative() {
        return Err(FramerateParseError::Negative("framerates cannot be negative".to_owned()));
    }
    if !ntsc.is_ntsc() {
        return Ok(Framerate::from_parts(v, ntsc));
    }
    if is_base {
        if !v.is_integer() {
            return Err(
                FramerateParseError::Ntsc("ntsc timebases must be whole numbers".to_owned()),
            );
        }
    } else {
        if v.denom() != 1001 {
            return Err(FramerateParseError::Ntsc("ntsc framerates must be n/1001".to_owned()));
        }
    }
    proof {
        if is_base {
            vstd::arithmetic::div_mod::lemma_div_multiples_vanish(v@.n, 1);
        }
    }
    if ntsc == Ntsc::DropFrame {
        if is_base {
            let n = v.numer();
            if (n as u64) % 30 != 0 {
                return Err(
                    FramerateParseError::DropFrame(
                        "dropframe must have timebase divisible by 30 (multiple of 29.97)".to_owned(),
                    ),
                );
            }
        } else {
            let n = v.numer();
            let d = v.denom();
            if (1001u128 * (n as u128)) % (30000u128 * (d as u128)) != 0 {
                return Err(
                    FramerateParseError::DropFrame(
                        "dropframe must have playback divisible by 30000/1001 (multiple of 29.97)".to_owned(),
                    ),
                );
            }
        }
    }
    if is_base {
        let n = v.numer();
        proof {
            lemma_reduced_of((n as int) * 1000, 1001);
            if ntsc == Ntsc::DropFrame {
                lemma_coerced_df(n as int, reduced_of((n as int) * 1000, 1001));
            }
        }
        match Rational::from_reduced128((n as i128) * 1000, 1001) {
            Some(q) => Ok(Framerate::from_parts(q, ntsc)),
            None => Err(
                FramerateParseError::Conversion(
                    "coerced ntsc playback does not fit in 64 bits".to_owned(),
                ),
            ),
        }
    } else {
        Ok(Framerate::from_parts(v, ntsc))
    }
}

/// Build a rate from an exact fraction.
fn rate_from_pair(n: i64, d: i64, ntsc: Ntsc, is_base: bool) -> (r: FramerateParseResult)
    ensures
        outcome_matches(rational_outcome(n as int, d as int, ntsc, is_base), ntsc, r),
{
    if d == 0 {
        return Err(
            FramerateParseError::Conversion("a framerate cannot have a zero denominator".to_owned()),
        );
    }
    if (n < 0 && d > 0) || (n > 0 && d < 0) {
        return Err(FramerateParseError::Negative("framerates cannot be negative".to_owned()));
    }
    match Rational::new(n, d) {
        Some(q) => build_validated(q, ntsc, is_base),
        None => Err(
            FramerateParseError::Conversion("framerate does not fit in 64 bits".to_owned()),
        ),
    }
}

/// Build a rate from an imprecise fraction, coercing it to NTSC.
fn rate_from_decimal_pair(n: i64, d: i64, ntsc: Ntsc, is_base: bool) -> (r: FramerateParseResult)
    ensures
        outcome_matches(decimal_outcome(n as int, d as int, ntsc, is_base), ntsc, r),
{
    if d == 0 {
        return Err(
            FramerateParseError::Conversion("a framerate cannot have a zero denominator".to_owned()),
        );
    }
    if !ntsc.is_ntsc() {
        return Err(
            FramerateParseError::Imprecise(
                "float values cannot be parsed for non-NTSC Framerates due to imprecision".to_owned(),
            ),
        );
    }
    let nn: i128 = if d < 0 {
        -(n as i128)
    } else {
        n as i128
    };
    let dd: i128 = if d < 0 {
        -(d as i128)
    } else {
        d as i128
    };
    let ghost v = Rat { n: nn as int, d: dd as int };
    if is_base {
        if nn < 0 {
            return Err(FramerateParseError::Negative("framerates cannot be negative".to_owned()));
        }
        let fl = floor_pair(nn, dd);
        proof {
            vstd::arithmetic::div_mod::lemma_fundamental_div_mod(v.n, v.d);
            vstd::arithmetic::div_mod::lemma_div_pos_is_pos(v.n, v.d);
            crate::rational::lemma_mul_abs_bound(
                fl as int,
                dd as int,
                0x8000_0000_0000_0000,
                0x8000_0000_0000_0000,
            );
        }
        let rem: i128 = nn - fl * dd;
        proof {
            assert(rem as int == v.n % v.d) by (nonlinear_arith)
                requires
                    v.n == v.d * (v.n / v.d) + v.n % v.d,
                    fl as int == v.n / v.d,
                    rem as int == v.n - (fl as int) * v.d,
            {
            }
        }
        if rem != 0 {
            return Err(
                FramerateParseError::Ntsc("ntsc timebases must be whole numbers".to_owned()),
            );
        }
        if ntsc == Ntsc::DropFrame && (fl as u128) % 30 != 0 {
            return Err(
                FramerateParseError::DropFrame(
                    "dropframe must have timebase divisible by 30 (multiple of 29.97)".to_owned(),
                ),
            );
        }
        proof {
            lemma_reduced_of(fl as int * 1000, 1001);
            if ntsc == Ntsc::DropFrame {
                lemma_coerced_df(fl as int, reduced_of(fl as int * 1000, 1001));
            }
        }
        match Rational::from_reduced128(fl * 1000, 1001) {
            Some(q) => Ok(Framerate::from_parts(q, ntsc)),
            None => Err(
                FramerateParseError::Conversion(
                    "coerced ntsc playback does not fit in 64 bits".to_owned(),
                ),
            ),
        }
    } else {
        let r0 = round_pair(nn, dd);
        proof {
            lemma_reduced_of(r0 as int * 1000, 1001);
        }
        match Rational::from_reduced128(r0 * 1000, 1001) {
            Some(q) => build_validated(q, ntsc, false),
            None => Err(
                FramerateParseError::Conversion(
                    "coerced ntsc playback does not fit in 64 bits".to_owned(),
                ),
            ),
        }
    }
}

/// Build a rate from text holding an `n/d` fraction, a whole number, or
/// a decimal.
fn rate_from_text(s: &str, ntsc: Ntsc, is_base: bool) -> (r: FramerateParseResult)
    ensures
        outcome_matches(text_outcome(s@, ntsc, is_base), ntsc, r),
{
    let len = s.unicode_len();
    let slash = find_first(s, '/');
    proof {
        crate::text::lemma_first_idx(s@, '/');
        crate::text::lemma_first_idx(s@, '.');
    }
    match slash {
        Some(fi) => {
            proof {
                assert(s@.take(fi as int) =~= s@.subrange(0, fi as int));
                assert(s@.skip(fi + 1) =~= s@.subrange(fi + 1, s@.len() as int));
            }
            if !check_signed_digits(s, 0, fi) || !check_signed_digits(s, fi + 1, len) {
                return Err(
                    FramerateParseError::Conversion(
                        "text is not a rational, int, or float framerate".to_owned(),
                    ),
                );
            }
            let num = parse_signed(s, 0, fi);
            let den = parse_signed(s, fi + 1, len);
            match (num, den) {
                (Some((nneg, nmag)), Some((dneg, dmag))) => {
                    let n: i64 = if nneg {
                        -nmag
                    } else {
                        nmag
                    };
                    let d: i64 = if dneg {
                        -dmag
                    } else {
                        dmag
                    };
                    rate_from_pair(n, d, ntsc, is_base)
                },
                _ => Err(
                    FramerateParseError::Conversion(
                        "framerate text does not fit in 64 bits".to_owned(),
                    ),
                ),
            }
        },
        None => {
            proof {
                assert(s@.subrange(0, len as int) =~= s@);
            }
            if check_signed_digits(s, 0, len) {
                match parse_signed(s, 0, len) {
                    Some((neg, mag)) => {
                        let n: i64 = if neg {
                            -mag
                        } else {
                            mag
                        };
                        rate_from_pair(n, 1, ntsc, is_base)
                    },
                    None => Err(
                        FramerateParseError::Conversion(
                            "framerate text does not fit in 64 bits".to_owned(),
                        ),
                    ),
                }
            } else {
                rate_from_decimal_text(s, ntsc, is_base)
            }
        },
    }
}

/// Build a rate from decimal text such as `23.98`; reached only when the
/// text is not a fraction or whole number.
fn rate_from_decimal_text(s: &str, ntsc: Ntsc, is_base: bool) -> (r: FramerateParseResult)
    requires
        first_idx(s@, '/') == -1,
        !signed_digits(s@),
    ensures
        outcome_matches(text_outcome(s@, ntsc, is_base), ntsc, r),
{
    let len = s.unicode_len();
    let dot = find_first(s, '.');
    proof {
        crate::text::lemma_first_idx(s@, '.');
    }
    let di = match dot {
        Some(di) => di,
        None => {
            return Err(
                FramerateParseError::Conversion(
                    "text is not a rational, int, or float framerate".to_owned(),
                ),
            );
        },
    };
    proof {
        assert(s@.take(di as int) =~= s@.subrange(0, di as int));
        assert(s@.skip(di + 1) =~= s@.subrange(di + 1, s@.len() as int));
    }
    if !check_signed_digits(s, 0, di) || di + 1 >= len || !check_digit_run(s, di + 1, len) {
        return Err(
            FramerateParseError::Conversion(
                "text is not a rational, int, or float framerate".to_owned(),
            ),
        );
    }
    if !ntsc.is_ntsc() {
        return Err(
            FramerateParseError::Imprecise(
                "float values cannot be parsed for non-NTSC Framerates due to imprecision".to_owned(),
            ),
        );
    }
    let (neg, ip) = match parse_signed(s, 0, di) {
        Some(p) => p,
        None => {
            return Err(
                FramerateParseError::Conversion(
                    "framerate text does not fit in 64 bits".to_owned(),
                ),
            );
        },
    };
    let ghost f = s@.skip(di + 1);
    if is_base {
        let zeros = check_zero_run(s, di + 1, len);
        if neg && (ip > 0 || !zeros) {
            return Err(FramerateParseError::Negative("framerates cannot be negative".to_owned()));
        }
        if !zeros {
            return Err(
                FramerateParseError::Ntsc("ntsc timebases must be whole numbers".to_owned()),
            );
        }
        if ntsc == Ntsc::DropFrame && (ip as u64) % 30 != 0 {
            return Err(
                FramerateParseError::DropFrame(
                    "dropframe must have timebase divisible by 30 (multiple of 29.97)".to_owned(),
                ),
            );
        }
        proof {
            lemma_reduced_of(ip as int * 1000, 1001);
            if ntsc == Ntsc::DropFrame {
                lemma_coerced_df(ip as int, reduced_of(ip as int * 1000, 1001));
            }
        }
        match Rational::from_reduced128((ip as i128) * 1000, 1001) {
            Some(q) => Ok(Framerate::from_parts(q, ntsc)),
            None => Err(
                FramerateParseError::Conversion(
                    "coerced ntsc playback does not fit in 64 bits".to_owned(),
                ),
            ),
        }
    } else {
        let c0 = s.get_char(di + 1);
        proof {
            assert(f[0] == s@[di + 1]);
        }
        let bump: i128 = if (c0 as u32) >= 53 {
            1
        } else {
            0
        };
        let rp: i128 = (ip as i128) + bump;
        let r0: i128 = if neg {
            -rp
        } else {
            rp
        };
        proof {
            lemma_reduced_of(r0 as int * 1000, 1001);
        }
        match Rational::from_reduced128(r0 * 1000, 1001) {
            Some(q) => build_validated(q, ntsc, false),
            None => Err(
                FramerateParseError::Conversion(
                    "coerced ntsc playback does not fit in 64 bits".to_owned(),
                ),
            ),
        }
    }
}

/// Build a rate from any source.
fn rate_from_source(src: &FramerateSource, ntsc: Ntsc, is_base: bool) -> (r: FramerateParseResult)
    ensures
        outcome_matches(rate_outcome(*src, ntsc, is_base), ntsc, r),
{
    match src {
        FramerateSource::Integer(i) => rate_from_pair(*i, 1, ntsc, is_base),
        FramerateSource::Rational(n, d) => rate_from_pair(*n, *d, ntsc, is_base),
        FramerateSource::Decimal(n, d) => rate_from_decimal_pair(*n, *d, ntsc, is_base),
        FramerateSource::Text(s) => rate_from_text(s.as_str(), ntsc, is_base),
    }
}

impl Framerate {
    /// Build a framerate from a real-world playback speed in frames per
    /// second, validated against (and, for imprecise sources, coerced
    /// to) the given NTSC standard.
    pub fn with_playback(rate: FramerateSource, ntsc: Ntsc) -> (r: FramerateParseResult)
        ensures
            outcome_matches(rate_outcome(rate, ntsc, false), ntsc, r),
    {
        rate_from_source(&rate, ntsc, false)
    }

    /// Build a framerate from a timecode timebase in frames per second;
    /// for NTSC standards the stored playback becomes `base * 1000/1001`.
    pub fn with_timebase(base: FramerateSource, ntsc: Ntsc) -> (r: FramerateParseResult)
        ensures
            outcome_matches(rate_outcome(base, ntsc, true), ntsc, r),
    {
        rate_from_source(&base, ntsc, true)
    }
}

} // verus!
