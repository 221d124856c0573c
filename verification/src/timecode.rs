//! The timecode value type: an exact rational count of real-world
//! seconds paired with a framerate, always resting on a whole frame
//! boundary, with arithmetic, ordering and conversions.

use crate::framerate::{dfpm_of, rate_wf, timebase_of, Framerate, Ntsc, RateView};
use crate::rational::{
    fits, floor_pair, iabs, lemma_mul_abs_bound, lemma_rat_neg_round, lemma_reduced_of,
    lemma_round_abs_bound, lemma_veq_determines, lemma_veq_mul_congruence, rat_wf64, reduced_fits,
    reduced_of, round_pair, Rat, Rational,
};
use vstd::arithmetic::div_mod::{
    lemma_div_is_ordered, lemma_div_is_ordered_by_denominator, lemma_div_multiples_vanish,
    lemma_div_nonincreasing, lemma_div_pos_is_pos, lemma_fundamental_div_mod,
    lemma_fundamental_div_mod_converse_div, lemma_mod_division_less_than_divisor,
};
use vstd::prelude::*;
use vstd::string::StringExecFns;

verus! {

/// The mathematical content of a timecode: its exact seconds and rate.
pub ghost struct TcView {
    pub seconds: Rat,
    pub rate: RateView,
}

/// The frame this timecode rests on: seconds times playback, rounded.
/// For a well-formed timecode the product is already whole.
pub open spec fn tc_frames(v: TcView) -> int {
    v.seconds.mul(v.rate.playback).round()
}

/// The seconds value a timecode stores after snapping `s` to the
/// nearest whole frame under `r`: the rounded frame count divided by
/// the playback speed, in lowest terms.
pub open spec fn stored_seconds(s: Rat, r: RateView) -> Rat {
    reduced_of(s.mul(r.playback).round() * r.playback.d, r.playback.n)
}

/// A frame count can be stored under rate `r`: it is a 64-bit value and
/// the seconds it maps to reduce to 64 bits.
pub open spec fn frames_ok(f: int, r: RateView) -> bool {
    fits(f) && reduced_fits(f * r.playback.d, r.playback.n)
}

/// A seconds value can be snapped and stored under rate `r`.
pub open spec fn secs_store_ok(s: Rat, r: RateView) -> bool {
    frames_ok(s.mul(r.playback).round(), r)
}

/// The number of editing-application ticks in one second.
pub open spec fn ticks_per_second() -> int {
    254016000000
}

/// The tick count of a timecode: seconds times the tick rate, rounded
/// to the nearest whole tick.
pub open spec fn tc_ticks(v: TcView) -> int {
    (Rat { n: v.seconds.n * ticks_per_second(), d: v.seconds.d }).round()
}

/// The sum of two timecodes' seconds is storable under the left rate.
pub open spec fn tc_add_ok(a: TcView, b: TcView) -> bool {
    reduced_fits(a.seconds.add(b.seconds).n, a.seconds.add(b.seconds).d) && secs_store_ok(
        a.seconds.add(b.seconds),
        a.rate,
    )
}

/// The difference of two timecodes' seconds is storable under the left
/// rate.
pub open spec fn tc_sub_ok(a: TcView, b: TcView) -> bool {
    reduced_fits(a.seconds.sub(b.seconds).n, a.seconds.sub(b.seconds).d) && secs_store_ok(
        a.seconds.sub(b.seconds),
        a.rate,
    )
}

/// The scaled seconds are storable under the timecode's rate.
pub open spec fn tc_scale_ok(a: TcView, q: Rat) -> bool {
    reduced_fits(a.seconds.mul(q).n, a.seconds.mul(q).d) && secs_store_ok(a.seconds.mul(q), a.rate)
}

/// The floor of the frame count divided by `q`.
pub open spec fn tc_div_frames(v: TcView, q: Rat) -> int {
    (Rat { n: tc_frames(v), d: 1 }).div(q).floor()
}

/// What division leaves behind: the frames not accounted for by the
/// floored quotient scaled back up, so that the quotient times `q` plus
/// the remainder lands exactly on the original frame count.
pub open spec fn tc_rem_frames(v: TcView, q: Rat) -> int {
    tc_frames(v) - (Rat { n: tc_div_frames(v, q) * q.n, d: q.d }).round()
}


/// The sections a timecode string displays: sign, hours, minutes,
/// seconds and frames, decomposed against the timebase.
pub ghost struct SectionsView {
    pub negative: bool,
    pub hours: int,
    pub minutes: int,
    pub seconds: int,
    pub frames: int,
}

/// The additive display adjustment that makes a true frame number show
/// as drop-frame timecode: nine skips per whole ten-minute block, plus
/// one skip per full minute begun in the remainder.
pub open spec fn df_display_adj(fabs: int, v: RateView) -> int {
    let p = v.playback;
    let dpm = dfpm_of(v);
    let fph = (Rat { n: 3600 * p.n, d: p.d }).round();
    let fp24 = 24 * fph;
    let fp10 = (Rat { n: 600 * p.n, d: p.d }).round();
    let fpm = (Rat { n: 60 * p.n, d: p.d }).round();
    let fn0 = fabs % fp24;
    let tens = fn0 / fp10;
    let rem = fn0 % fp10;
    if rem > dpm {
        dpm * 9 * tens + (dpm * (rem - dpm)) / fpm
    } else {
        dpm * 9 * tens
    }
}

/// The displayed sections of a timecode: the magnitude of its frame
/// number (drop-frame adjusted where the rate calls for it) decomposed
/// by the timebase into hours, minutes, seconds and leftover frames.
pub open spec fn sections_of(v: TcView) -> SectionsView {
    let fabs = iabs(tc_frames(v));
    let adj = if v.rate.ntsc == Ntsc::DropFrame {
        df_display_adj(fabs, v.rate)
    } else {
        0
    };
    let ftot = fabs + adj;
    let tb = timebase_of(v.rate);
    let n0 = ftot * tb.d;
    let a1 = n0 % (3600 * tb.n);
    let a2 = a1 % (60 * tb.n);
    let a3 = a2 % tb.n;
    SectionsView {
        negative: v.seconds.is_neg(),
        hours: n0 / (3600 * tb.n),
        minutes: a1 / (60 * tb.n),
        seconds: a2 / tb.n,
        frames: (Rat { n: a3, d: tb.d }).round(),
    }
}

/// The separator before the frames place: a semicolon marks drop-frame.
pub open spec fn tc_sep(v: RateView) -> Seq<char> {
    if v.ntsc == Ntsc::DropFrame {
        seq![';']
    } else {
        seq![':']
    }
}

/// The full timecode string: optional sign, two-digit-or-more sections,
/// and the rate's separator before the frames.
pub open spec fn tc_display(v: TcView) -> Seq<char> {
    let s = sections_of(v);
    let sign: Seq<char> = if s.negative {
        seq!['-']
    } else {
        Seq::<char>::empty()
    };
    sign + crate::text::pad2(s.hours as nat) + seq![':'] + crate::text::pad2(s.minutes as nat)
        + seq![':'] + crate::text::pad2(s.seconds as nat) + tc_sep(v.rate) + crate::text::pad2(
        s.frames as nat,
    )
}

/// A drop-frame playback speed of at least one frame per second is at
/// least 30000/1001, so the per-minute frame counts it rounds to are
/// all positive.
proof fn lemma_df_bounds(p: Rat)
    requires
        p.d >= 1,
        p.n >= 1,
        (1001 * p.n) % (30000 * p.d) == 0,
    ensures
        (Rat { n: 60 * p.n, d: p.d }).round() >= 1798,
        (Rat { n: 600 * p.n, d: p.d }).round() >= 17982,
        (Rat { n: 3600 * p.n, d: p.d }).round() >= 107892,
{
    lemma_fundamental_div_mod(1001 * p.n, 30000 * p.d);
    let k = (1001 * p.n) / (30000 * p.d);
    assert(1001 * p.n == (30000 * p.d) * k);
    assert(k >= 1) by (nonlinear_arith)
        requires
            1001 * p.n == (30000 * p.d) * k,
            p.n >= 1,
            p.d >= 1,
    {
    }
    assert(60 * p.n >= 1798 * p.d && 600 * p.n >= 17982 * p.d && 3600 * p.n >= 107892 * p.d)
        by (nonlinear_arith)
        requires
            1001 * p.n == (30000 * p.d) * k,
            k >= 1,
            p.d >= 1,
    {
    }
    lemma_round_at_least(Rat { n: 60 * p.n, d: p.d }, 1798);
    lemma_round_at_least(Rat { n: 600 * p.n, d: p.d }, 17982);
    lemma_round_at_least(Rat { n: 3600 * p.n, d: p.d }, 107892);
}

/// A value at least `c` rounds to at least `c`.
proof fn lemma_round_at_least(r: Rat, c: int)
    requires
        r.wf(),
        r.n >= c * r.d,
        c >= 0,
    ensures
        r.round() >= c,
{
    lemma_div_is_ordered(c * r.d, r.n, r.d);
    lemma_div_multiples_vanish(c, r.d);
    assert((c * r.d) / r.d == c) by {
        assert(c * r.d == r.d * c) by (nonlinear_arith);
    }
    assert(r.n / r.d >= c);
    lemma_fundamental_div_mod(r.n, r.d);
    lemma_mod_division_less_than_divisor(r.n, r.d);
    assert(r.round() == r.n / r.d || r.round() == r.n / r.d + 1);
}



/// The four film gauge/pulldown formats the footage codec understands.
#[derive(Clone, Copy, Debug, PartialEq, Eq, Structural)]
pub enum FilmFormat {
    /// 35 mm film, four perforations per frame (sixteen frames a foot).
    FF35mm4perf,
    /// 35 mm film, three perforations per frame.
    FF35mm3perf,
    /// 35 mm film, two perforations per frame.
    FF35mm2perf,
    /// 16 mm film: one perforation per frame, counted against the
    /// twenty-perforation edge-code unit.
    FF16mm,
}

/// Perforations each frame occupies on the film.
pub open spec fn s_perfs_per_frame(f: FilmFormat) -> int {
    match f {
        FilmFormat::FF35mm4perf => 4,
        FilmFormat::FF35mm3perf => 3,
        FilmFormat::FF35mm2perf => 2,
        FilmFormat::FF16mm => 1,
    }
}

/// Perforations in the format's footage unit.
pub open spec fn s_perfs_per_foot(f: FilmFormat) -> int {
    match f {
        FilmFormat::FF16mm => 20,
        _ => 64,
    }
}

/// The fewest perforations that make a whole number of frames and a
/// whole number of feet: the least common multiple of the two counts.
pub open spec fn s_modulus_perfs(f: FilmFormat) -> int {
    s_perfs_per_frame(f) * s_perfs_per_foot(f) / (crate::rational::gcd_nat(
        s_perfs_per_frame(f) as nat,
        s_perfs_per_foot(f) as nat,
    ) as int)
}

/// Frames in one footage modulus.
pub open spec fn s_modulus_frames(f: FilmFormat) -> int {
    s_modulus_perfs(f) / s_perfs_per_frame(f)
}

/// Feet in one footage modulus.
pub open spec fn s_modulus_feet(f: FilmFormat) -> int {
    s_modulus_perfs(f) / s_perfs_per_foot(f)
}

/// The format writes a perforation-offset field: true exactly when a
/// foot does not hold a whole number of frames.
pub open spec fn s_allows_perf(f: FilmFormat) -> bool {
    s_perfs_per_foot(f) % s_perfs_per_frame(f) != 0
}

/// The derived footage constants of each format, evaluated.
pub proof fn lemma_format_constants()
    ensures
        crate::rational::gcd_nat(4, 64) == 4,
        crate::rational::gcd_nat(3, 64) == 1,
        crate::rational::gcd_nat(2, 64) == 2,
        crate::rational::gcd_nat(1, 20) == 1,
        s_modulus_perfs(FilmFormat::FF35mm4perf) == 64,
        s_modulus_perfs(FilmFormat::FF35mm3perf) == 192,
        s_modulus_perfs(FilmFormat::FF35mm2perf) == 64,
        s_modulus_perfs(FilmFormat::FF16mm) == 20,
        s_modulus_frames(FilmFormat::FF35mm4perf) == 16,
        s_modulus_frames(FilmFormat::FF35mm3perf) == 64,
        s_modulus_frames(FilmFormat::FF35mm2perf) == 32,
        s_modulus_frames(FilmFormat::FF16mm) == 20,
        s_modulus_feet(FilmFormat::FF35mm4perf) == 1,
        s_modulus_feet(FilmFormat::FF35mm3perf) == 3,
        s_modulus_feet(FilmFormat::FF35mm2perf) == 1,
        s_modulus_feet(FilmFormat::FF16mm) == 1,
{
    reveal_with_fuel(crate::rational::gcd_nat, 2);
    assert(crate::rational::gcd_nat(4, 64) == crate::rational::gcd_nat(64, 4));
    assert(crate::rational::gcd_nat(64, 4) == crate::rational::gcd_nat(4, 0));
    assert(crate::rational::gcd_nat(4, 0) == 4);
    assert(crate::rational::gcd_nat(3, 64) == crate::rational::gcd_nat(64, 3));
    assert(crate::rational::gcd_nat(64, 3) == crate::rational::gcd_nat(3, 1));
    assert(crate::rational::gcd_nat(3, 1) == crate::rational::gcd_nat(1, 0));
    assert(crate::rational::gcd_nat(1, 0) == 1);
    assert(crate::rational::gcd_nat(2, 64) == crate::rational::gcd_nat(64, 2));
    assert(crate::rational::gcd_nat(64, 2) == crate::rational::gcd_nat(2, 0));
    assert(crate::rational::gcd_nat(2, 0) == 2);
    assert(crate::rational::gcd_nat(1, 20) == crate::rational::gcd_nat(20, 1));
    assert(crate::rational::gcd_nat(20, 1) == crate::rational::gcd_nat(1, 0));
    assert(s_modulus_perfs(FilmFormat::FF35mm4perf) == 64) by {
        assert(s_perfs_per_frame(FilmFormat::FF35mm4perf) == 4);
        assert(s_perfs_per_foot(FilmFormat::FF35mm4perf) == 64);
        assert(crate::rational::gcd_nat(
            s_perfs_per_frame(FilmFormat::FF35mm4perf) as nat,
            s_perfs_per_foot(FilmFormat::FF35mm4perf) as nat,
        ) == 4);
    }
    assert(s_modulus_perfs(FilmFormat::FF35mm3perf) == 192) by {
        assert(s_perfs_per_frame(FilmFormat::FF35mm3perf) == 3);
        assert(s_perfs_per_foot(FilmFormat::FF35mm3perf) == 64);
        assert(crate::rational::gcd_nat(
            s_perfs_per_frame(FilmFormat::FF35mm3perf) as nat,
            s_perfs_per_foot(FilmFormat::FF35mm3perf) as nat,
        ) == 1);
    }
    assert(s_modulus_perfs(FilmFormat::FF35mm2perf) == 64) by {
        assert(s_perfs_per_frame(FilmFormat::FF35mm2perf) == 2);
        assert(s_perfs_per_foot(FilmFormat::FF35mm2perf) == 64);
        assert(crate::rational::gcd_nat(
            s_perfs_per_frame(FilmFormat::FF35mm2perf) as nat,
            s_perfs_per_foot(FilmFormat::FF35mm2perf) as nat,
        ) == 2);
    }
    assert(s_modulus_perfs(FilmFormat::FF16mm) == 20) by {
        assert(s_perfs_per_frame(FilmFormat::FF16mm) == 1);
        assert(s_perfs_per_foot(FilmFormat::FF16mm) == 20);
        assert(crate::rational::gcd_nat(
            s_perfs_per_frame(FilmFormat::FF16mm) as nat,
            s_perfs_per_foot(FilmFormat::FF16mm) as nat,
        ) == 1);
        assert(s_modulus_perfs(FilmFormat::FF16mm) == (1 * 20) / 1);
        assert((1int * 20) / 1int == 20);
    }
}

impl FilmFormat {
    /// Perforations per logical foot of this format.
    pub fn perfs_per_foot(&self) -> (r: i64)
        ensures
            r as int == s_perfs_per_foot(*self),
    {
        match self {
            FilmFormat::FF16mm => 20,
            _ => 64,
        }
    }

    /// Perforations per frame of this format.
    pub fn perfs_per_frame(&self) -> (r: i64)
        ensures
            r as int == s_perfs_per_frame(*self),
    {
        match self {
            FilmFormat::FF35mm4perf => 4,
            FilmFormat::FF35mm3perf => 3,
            FilmFormat::FF35mm2perf => 2,
            FilmFormat::FF16mm => 1,
        }
    }

    /// Fewest perforations completing whole feet and whole frames: the
    /// least common multiple of the per-frame and per-foot counts.
    #[verifier::rlimit(50)]
    #[verifier::spinoff_prover]
    pub fn footage_modulus_perf_count(&self) -> (r: i64)
        ensures
            r as int == s_modulus_perfs(*self),
    {
        proof {
            lemma_format_constants();
        }
        let a = self.perfs_per_frame();
        let b = self.perfs_per_foot();
        let g = crate::rational::gcd_u64(a as u64, b as u64);
        proof {
            if *self == FilmFormat::FF35mm4perf {
                assert((a as u64) as nat == 4 && (b as u64) as nat == 64);
                assert(g == 4);
            } else if *self == FilmFormat::FF35mm3perf {
                assert((a as u64) as nat == 3 && (b as u64) as nat == 64);
                assert(g == 1);
            } else if *self == FilmFormat::FF35mm2perf {
                assert((a as u64) as nat == 2 && (b as u64) as nat == 64);
                assert(g == 2);
            } else {
                assert((a as u64) as nat == 1 && (b as u64) as nat == 20);
                assert(g == 1);
            }
            assert(1 <= g <= 4 && (a as u64) <= 4 && (b as u64) <= 64);
            assert((a as int) * (b as int) == s_perfs_per_frame(*self) * s_perfs_per_foot(*self));
            assert(g as int == crate::rational::gcd_nat(
                s_perfs_per_frame(*self) as nat,
                s_perfs_per_foot(*self) as nat,
            ) as int);
            crate::rational::lemma_mul_abs_bound((a as u64) as int, (b as u64) as int, 4, 64);
        }
        (((a as u64) * (b as u64)) / g) as i64
    }

    /// Frames in one footage modulus.
    pub fn footage_modulus_frame_count(&self) -> (r: i64)
        ensures
            r as int == s_modulus_frames(*self),
    {
        proof {
            lemma_format_constants();
        }
        self.footage_modulus_perf_count() / self.perfs_per_frame()
    }

    /// Feet in one footage modulus.
    pub fn footage_modulus_footage_count(&self) -> (r: i64)
        ensures
            r as int == s_modulus_feet(*self),
    {
        proof {
            lemma_format_constants();
        }
        self.footage_modulus_perf_count() / self.perfs_per_foot()
    }

    /// Whether footage strings of this format carry a perforation field.
    pub fn allows_perf_field(&self) -> (r: bool)
        ensures
            r == s_allows_perf(*self),
    {
        let a = self.perfs_per_foot();
        let b = self.perfs_per_frame();
        (a as u64) % (b as u64) != 0
    }
}

/// The content of a footage text bundled with a format hint.
pub ghost struct FeetFramesView {
    pub text: Seq<char>,
    pub format: FilmFormat,
}

/// A footage text together with the film format to read it in, which
/// overrides the parser's own inference.
#[derive(Clone, Debug)]
pub struct FeetFramesStr {
    pub(crate) input: String,
    pub(crate) format: FilmFormat,
}

impl View for FeetFramesStr {
    type V = FeetFramesView;

    closed spec fn view(&self) -> FeetFramesView {
        FeetFramesView { text: self.input@, format: self.format }
    }
}

impl FeetFramesStr {
    /// How the view decomposes into the stored parts.
    pub(crate) proof fn lemma_view(self)
        ensures
            self@ == (FeetFramesView { text: self.input@, format: self.format }),
    {
    }

    /// Bundle a footage text with the format to read it in.
    pub fn new(input: &str, format: FilmFormat) -> (r: FeetFramesStr)
        ensures
            r@.text == input@,
            r@.format == format,
    {
        FeetFramesStr { input: input.to_owned(), format }
    }
}


/// The foot a frame falls in: footage is attributed to the foot where
/// the frame ends, so the frame's last perforation is divided out.
pub open spec fn ff_disp_feet(f: int, fmt: FilmFormat) -> int {
    (f * s_perfs_per_frame(fmt) + s_perfs_per_frame(fmt) - 1) / s_perfs_per_foot(fmt)
}

/// The frame number within its foot.
pub open spec fn ff_disp_frames(f: int, fmt: FilmFormat) -> int {
    ((f * s_perfs_per_frame(fmt) + s_perfs_per_frame(fmt) - 1) % s_perfs_per_foot(fmt))
        / s_perfs_per_frame(fmt)
}

/// The perforation marker: the foot number within the footage modulus.
pub open spec fn ff_disp_perf(f: int, fmt: FilmFormat) -> int {
    ff_disp_feet(f, fmt) % s_modulus_feet(fmt)
}

/// The footage text of a timecode: sign, feet, a plus, the two-place
/// in-foot frame, and for formats that need it a dot and the
/// perforation marker.
pub open spec fn ff_display(v: TcView, fmt: FilmFormat) -> Seq<char> {
    let fa = iabs(tc_frames(v));
    let sign: Seq<char> = if v.seconds.is_neg() {
        seq!['-']
    } else {
        Seq::<char>::empty()
    };
    sign + crate::text::dec_digits(ff_disp_feet(fa, fmt) as nat) + seq!['+'] + crate::text::pad2(
        ff_disp_frames(fa, fmt) as nat,
    ) + (if s_allows_perf(fmt) {
        seq!['.'] + crate::text::dec_digits(ff_disp_perf(fa, fmt) as nat)
    } else {
        Seq::<char>::empty()
    })
}

/// The magnitude of the seconds scaled to `p` decimal places and
/// rounded to the nearest whole number of such places, halves up.
pub open spec fn runtime_scaled(v: TcView, p: nat) -> int {
    (Rat { n: iabs(v.seconds.n) * crate::text::pow10(p), d: v.seconds.d }).round()
}

/// The fraction places with trailing zeros trimmed; a fraction that is
/// exactly zero keeps a single zero place.
pub open spec fn trim_frac(fu: int, p: nat) -> Seq<char>
    decreases p,
{
    if p == 0 {
        Seq::<char>::empty()
    } else if fu % 10 == 0 {
        trim_frac(fu / 10, (p - 1) as nat)
    } else {
        crate::text::dec_digits_padded(fu, p)
    }
}

/// The text after the seconds place: a dot and the trimmed fraction.
pub open spec fn runtime_frac_text(fu: int, p: nat) -> Seq<char> {
    if fu == 0 {
        seq!['.', '0']
    } else {
        seq!['.'] + trim_frac(fu, p)
    }
}

/// The runtime text of a timecode at `p` places: true elapsed time
/// (not the frame-rounded clock), written `HH:MM:SS` with the rounded,
/// trimmed decimal fraction behind it.
pub open spec fn runtime_display(v: TcView, p: nat) -> Seq<char> {
    let sc = runtime_scaled(v, p);
    let pw = crate::text::pow10(p);
    let tsec = sc / pw;
    let fu = sc % pw;
    let sign: Seq<char> = if v.seconds.is_neg() {
        seq!['-']
    } else {
        Seq::<char>::empty()
    };
    sign + crate::text::pad2((tsec / 3600) as nat) + seq![':'] + crate::text::pad2(
        (tsec % 3600 / 60) as nat,
    ) + seq![':'] + crate::text::pad2((tsec % 60) as nat) + runtime_frac_text(fu, p)
}

/// The individual places of a timecode string, for formatting and
/// inspection.
#[derive(Clone, Copy, Debug, PartialEq, Eq, Structural)]
pub struct TimecodeSections {
    /// Whether the timecode marks a negative value.
    pub negative: bool,
    /// Hours place.
    pub hours: i64,
    /// Minutes place.
    pub minutes: i64,
    /// Seconds place.
    pub seconds: i64,
    /// Frames place.
    pub frames: i64,
}

/// A frame in a video sequence: an exact rational count of real-world
/// seconds since zero, and the framerate it plays at.  The seconds
/// always rest on a whole frame boundary under that rate.
#[derive(Clone, Copy, Debug)]
pub struct Timecode {
    pub(crate) seconds: Rational,
    pub(crate) rate: Framerate,
}

impl View for Timecode {
    type V = TcView;

    closed spec fn view(&self) -> TcView {
        TcView { seconds: self.seconds@, rate: self.rate@ }
    }
}

impl Timecode {
    /// Reduced 64-bit seconds, a well-formed positive rate, and seconds
    /// resting on a representable whole frame boundary.
    pub open spec fn wf(self) -> bool {
        &&& rat_wf64(self@.seconds)
        &&& rate_wf(self@.rate)
        &&& self@.rate.playback.n >= 1
        &&& self@.seconds.mul(self@.rate.playback).is_int()
        &&& fits(tc_frames(self@))
    }

    /// The framerate of the timecode.
    pub fn rate(&self) -> (r: Framerate)
        requires
            self.wf(),
        ensures
            r.wf(),
            r@ == self@.rate,
    {
        self.rate
    }

    /// The exact real-world seconds elapsed between zero and this
    /// timecode.
    pub fn seconds(&self) -> (r: Rational)
        requires
            self.wf(),
        ensures
            r.wf(),
            r@ == self@.seconds,
    {
        self.seconds
    }

    /// The whole frame this timecode rests on: seconds times playback.
    pub fn frames(&self) -> (r: i64)
        requires
            self.wf(),
        ensures
            r as int == tc_frames(self@),
    {
        proof {
            self.rate.lemma_view();
            let s = self@.seconds;
            let p = self@.rate.playback;
            lemma_mul_abs_bound(s.n, p.n, i64::MAX as int, i64::MAX as int);
            lemma_mul_abs_bound(s.d, p.d, i64::MAX as int, i64::MAX as int);
            assert(s.d * p.d >= 1) by (nonlinear_arith)
                requires
                    s.d >= 1,
                    p.d >= 1,
            {
            }
        }
        let f = round_pair(
            (self.seconds.numer() as i128) * (self.rate.value.numer() as i128),
            (self.seconds.denom() as i128) * (self.rate.value.denom() as i128),
        );
        f as i64
    }

    /// Build a timecode resting exactly on frame `f` of `rate`: its
    /// seconds are `f` divided by the playback speed.
    pub(crate) fn from_frame_count(f: i64, rate: Framerate) -> (r: Option<Timecode>)
        requires
            rate.wf(),
            rate@.playback.n >= 1,
        ensures
            r matches Some(tc) ==> {
                &&& tc.wf()
                &&& tc@.rate == rate@
                &&& tc@.seconds == reduced_of(f as int * rate@.playback.d, rate@.playback.n)
                &&& tc_frames(tc@) == f as int
            },
            r.is_some() <==> frames_ok(f as int, rate@),
    {
        let ghost p = rate@.playback;
        proof {
            rate.lemma_view();
            lemma_mul_abs_bound(f as int, p.d, 0x8000_0000_0000_0000, i64::MAX as int);
            lemma_reduced_of(f as int * p.d, p.n);
        }
        let nn: i128 = (f as i128) * (rate.value.denom() as i128);
        let sec = match Rational::from_reduced128(nn, rate.value.numer() as i128) {
            Some(s) => s,
            None => {
                return None;
            },
        };
        if f == i64::MIN {
            proof {
                assert(!fits(f as int));
            }
            return None;
        }
        proof {
            let s = sec@;
            let target = Rat { n: f as int * p.d, d: p.n };
            assert(s.veq(target));
            lemma_veq_mul_congruence(s, target, p);
            let prod = target.mul(p);
            assert(prod.veq(Rat { n: f as int, d: 1 })) by (nonlinear_arith)
                requires
                    prod == (Rat { n: (f as int * p.d) * p.n, d: p.n * p.d }),
                    p.n >= 1,
                    p.d >= 1,
            {
            }
            assert(prod.wf()) by (nonlinear_arith)
                requires
                    prod.d == p.n * p.d,
                    p.n >= 1,
                    p.d >= 1,
            {
            }
            assert(s.mul(p).wf()) by (nonlinear_arith)
                requires
                    s.d >= 1,
                    p.d >= 1,
            {
            }
            crate::rational::lemma_veq_trans(s.mul(p), prod, Rat { n: f as int, d: 1 });
            lemma_veq_determines(s.mul(p), Rat { n: f as int, d: 1 });
            vstd::arithmetic::div_mod::lemma_div_multiples_vanish(f as int, 1);
            vstd::arithmetic::div_mod::lemma_mod_division_less_than_divisor(f as int, 1);
            assert((Rat { n: f as int, d: 1 }).round() == f as int);
            assert((Rat { n: f as int, d: 1 }).is_int());
        }
        Some(Timecode { seconds: sec, rate })
    }

    /// Snap a seconds value to the nearest whole frame under `rate` and
    /// build the timecode.
    pub(crate) fn from_rational_seconds(s: Rational, rate: Framerate) -> (r: Option<Timecode>)
        requires
            s.wf(),
            rate.wf(),
            rate@.playback.n >= 1,
        ensures
            r matches Some(tc) ==> {
                &&& tc.wf()
                &&& tc@.rate == rate@
                &&& tc@.seconds == stored_seconds(s@, rate@)
                &&& tc_frames(tc@) == s@.mul(rate@.playback).round()
            },
            r.is_some() <==> secs_store_ok(s@, rate@),
    {
        let ghost p = rate@.playback;
        proof {
            rate.lemma_view();
            lemma_mul_abs_bound(s@.n, p.n, i64::MAX as int, i64::MAX as int);
            lemma_mul_abs_bound(s@.d, p.d, i64::MAX as int, i64::MAX as int);
            assert(s@.d * p.d >= 1) by (nonlinear_arith)
                requires
                    s@.d >= 1,
                    p.d >= 1,
            {
            }
        }
        let f = round_pair(
            (s.numer() as i128) * (rate.value.numer() as i128),
            (s.denom() as i128) * (rate.value.denom() as i128),
        );
        if f > (i64::MAX as i128) || f < -(i64::MAX as i128) {
            return None;
        }
        Self::from_frame_count(f as i64, rate)
    }

    /// Reinterpret the same frame count at a different rate: the frame
    /// number is kept and the real-world duration changes.
    pub fn rebase(&self, rate: Framerate) -> (r: Timecode)
        requires
            self.wf(),
            rate.wf(),
            rate@.playback.n >= 1,
            frames_ok(tc_frames(self@), rate@),
        ensures
            r.wf(),
            r@.rate == rate@,
            tc_frames(r@) == tc_frames(self@),
    {
        let f = self.frames();
        match Self::from_frame_count(f, rate) {
            Some(tc) => tc,
            None => {
                proof {
                    assert(false);
                }
                *self
            },
        }
    }


    /// Exact addition of real-world seconds, snapped to this timecode's
    /// own frame boundary.
    pub fn add(self, other: Timecode) -> (r: Timecode)
        requires
            self.wf(),
            other.wf(),
            tc_add_ok(self@, other@),
        ensures
            r.wf(),
            r@.rate == self@.rate,
            r@.seconds == stored_seconds(self@.seconds.add(other@.seconds), self@.rate),
            tc_frames(r@) == self@.seconds.add(other@.seconds).mul(self@.rate.playback).round(),
    {
        let ghost s12 = self@.seconds.add(other@.seconds);
        let sum = match self.seconds.checked_add(other.seconds) {
            Some(x) => x,
            None => {
                proof {
                    assert(false);
                }
                self.seconds
            },
        };
        proof {
            assert(s12.wf()) by (nonlinear_arith)
                requires
                    self@.seconds.d >= 1,
                    other@.seconds.d >= 1,
                    s12.d == self@.seconds.d * other@.seconds.d,
            {
            }
            Self::lemma_snap_same(sum@, s12, self@.rate);
        }
        match Self::from_rational_seconds(sum, self.rate) {
            Some(tc) => tc,
            None => {
                proof {
                    assert(false);
                }
                self
            },
        }
    }

    /// Exact subtraction of real-world seconds, snapped to this
    /// timecode's own frame boundary.
    pub fn subtract(self, other: Timecode) -> (r: Timecode)
        requires
            self.wf(),
            other.wf(),
            tc_sub_ok(self@, other@),
        ensures
            r.wf(),
            r@.rate == self@.rate,
            r@.seconds == stored_seconds(self@.seconds.sub(other@.seconds), self@.rate),
            tc_frames(r@) == self@.seconds.sub(other@.seconds).mul(self@.rate.playback).round(),
    {
        let ghost s12 = self@.seconds.sub(other@.seconds);
        let diff = match self.seconds.checked_sub(other.seconds) {
            Some(x) => x,
            None => {
                proof {
                    assert(false);
                }
                self.seconds
            },
        };
        proof {
            assert(s12.wf()) by (nonlinear_arith)
                requires
                    self@.seconds.d >= 1,
                    other@.seconds.d >= 1,
                    s12.d == self@.seconds.d * other@.seconds.d,
            {
            }
            Self::lemma_snap_same(diff@, s12, self@.rate);
        }
        match Self::from_rational_seconds(diff, self.rate) {
            Some(tc) => tc,
            None => {
                proof {
                    assert(false);
                }
                self
            },
        }
    }

    /// Scale the real-world seconds by an exact factor, snapped to this
    /// timecode's own frame boundary.
    pub fn scale(self, factor: Rational) -> (r: Timecode)
        requires
            self.wf(),
            factor.wf(),
            tc_scale_ok(self@, factor@),
        ensures
            r.wf(),
            r@.rate == self@.rate,
            r@.seconds == stored_seconds(self@.seconds.mul(factor@), self@.rate),
            tc_frames(r@) == self@.seconds.mul(factor@).mul(self@.rate.playback).round(),
    {
        let ghost s12 = self@.seconds.mul(factor@);
        let prod = match self.seconds.checked_mul(factor) {
            Some(x) => x,
            None => {
                proof {
                    assert(false);
                }
                self.seconds
            },
        };
        proof {
            assert(s12.wf()) by (nonlinear_arith)
                requires
                    self@.seconds.d >= 1,
                    factor@.d >= 1,
                    s12.d == self@.seconds.d * factor@.d,
            {
            }
            Self::lemma_snap_same(prod@, s12, self@.rate);
        }
        match Self::from_rational_seconds(prod, self.rate) {
            Some(tc) => tc,
            None => {
                proof {
                    assert(false);
                }
                self
            },
        }
    }

    /// Two equal-valued seconds snap to the same frame and store the
    /// same value.
    pub(crate) proof fn lemma_snap_same(a: Rat, b: Rat, r: RateView)
        requires
            a.wf(),
            b.wf(),
            a.veq(b),
            r.playback.d >= 1,
            r.playback.n >= 1,
        ensures
            a.mul(r.playback).round() == b.mul(r.playback).round(),
            stored_seconds(a, r) == stored_seconds(b, r),
            secs_store_ok(a, r) == secs_store_ok(b, r),
    {
        lemma_veq_mul_congruence(a, b, r.playback);
        assert(a.mul(r.playback).wf() && b.mul(r.playback).wf()) by (nonlinear_arith)
            requires
                a.d >= 1,
                b.d >= 1,
                r.playback.d >= 1,
        {
        }
        lemma_veq_determines(a.mul(r.playback), b.mul(r.playback));
    }

    /// Divide the frame count by an exact nonzero factor, taking the
    /// floor of the quotient.
    pub fn divide_floor(self, divisor: Rational) -> (r: Timecode)
        requires
            self.wf(),
            divisor.wf(),
            !divisor@.is_zero(),
            frames_ok(tc_div_frames(self@, divisor@), self@.rate),
        ensures
            r.wf(),
            r@.rate == self@.rate,
            tc_frames(r@) == tc_div_frames(self@, divisor@),
    {
        let f = self.frames();
        proof {
            lemma_mul_abs_bound(f as int, divisor@.d, 0x8000_0000_0000_0000, i64::MAX as int);
            lemma_mul_abs_bound(f as int, -divisor@.d, 0x8000_0000_0000_0000, i64::MAX as int);
        }
        let fq: i128 = if divisor.is_negative() {
            floor_pair((f as i128) * (-(divisor.denom() as i128)), -(divisor.numer() as i128))
        } else {
            floor_pair((f as i128) * (divisor.denom() as i128), divisor.numer() as i128)
        };
        proof {
            assert(1 * -divisor@.n == -divisor@.n);
            assert(1 * divisor@.n == divisor@.n);
        }
        match Self::from_frame_count(fq as i64, self.rate) {
            Some(tc) => tc,
            None => {
                proof {
                    assert(false);
                }
                self
            },
        }
    }

    /// The remainder that pairs with `divide_floor`: the quotient scaled
    /// back by the divisor plus this remainder returns the original
    /// frame count.
    pub fn remainder(self, divisor: Rational) -> (r: Timecode)
        requires
            self.wf(),
            divisor.wf(),
            !divisor@.is_zero(),
            fits(tc_div_frames(self@, divisor@)),
            frames_ok(tc_rem_frames(self@, divisor@), self@.rate),
        ensures
            r.wf(),
            r@.rate == self@.rate,
            tc_frames(r@) == tc_rem_frames(self@, divisor@),
    {
        let f = self.frames();
        proof {
            lemma_mul_abs_bound(f as int, divisor@.d, 0x8000_0000_0000_0000, i64::MAX as int);
            lemma_mul_abs_bound(f as int, -divisor@.d, 0x8000_0000_0000_0000, i64::MAX as int);
        }
        let fq: i128 = if divisor.is_negative() {
            floor_pair((f as i128) * (-(divisor.denom() as i128)), -(divisor.numer() as i128))
        } else {
            floor_pair((f as i128) * (divisor.denom() as i128), divisor.numer() as i128)
        };
        proof {
            assert(1 * -divisor@.n == -divisor@.n);
            assert(1 * divisor@.n == divisor@.n);
            assert(fq as int == tc_div_frames(self@, divisor@));
            lemma_mul_abs_bound(fq as int, divisor@.n, 0x8000_0000_0000_0000, i64::MAX as int);
        }
        let scaled = round_pair(fq * (divisor.numer() as i128), divisor.denom() as i128);
        let rem: i128 = (f as i128) - scaled;
        match Self::from_frame_count(rem as i64, self.rate) {
            Some(tc) => tc,
            None => {
                proof {
                    assert(false);
                }
                self
            },
        }
    }

    /// The editing-application tick count of this timecode: seconds
    /// times 254 016 000 000, rounded to the nearest whole tick.
    pub fn premiere_ticks(&self) -> (r: i64)
        requires
            self.wf(),
            fits(tc_ticks(self@)),
        ensures
            r as int == tc_ticks(self@),
    {
        proof {
            lemma_mul_abs_bound(self@.seconds.n, 254016000000, i64::MAX as int, 254016000000);
        }
        let t = round_pair(
            (self.seconds.numer() as i128) * 254016000000,
            self.seconds.denom() as i128,
        );
        t as i64
    }


    /// The drop-frame display adjustment for an absolute frame number.
    fn df_display_adjustment(&self, fabs: i64) -> (r: i128)
        requires
            self.wf(),
            self@.rate.ntsc == Ntsc::DropFrame,
            fabs >= 0,
        ensures
            r as int == df_display_adj(fabs as int, self@.rate),
            0 <= (r as int) < 0x1000_0000_0000_0000_0000_0000_0000_0000,
    {
        let ghost p = self@.rate.playback;
        let dpm: i64 = match self.rate.drop_frames_per_minute() {
            Some(d) => d,
            None => {
                proof {
                    assert(false);
                }
                0
            },
        };
        proof {
            self.rate.lemma_view();
            lemma_df_bounds(p);
            lemma_mul_abs_bound(3600, p.n, 3600, i64::MAX as int);
            lemma_mul_abs_bound(600, p.n, 600, i64::MAX as int);
            lemma_mul_abs_bound(60, p.n, 60, i64::MAX as int);
        }
        let pn = self.rate.value.numer();
        let pd = self.rate.value.denom();
        let fph = round_pair(3600 * (pn as i128), pd as i128);
        let fp10 = round_pair(600 * (pn as i128), pd as i128);
        let fpm = round_pair(60 * (pn as i128), pd as i128);
        let fp24: i128 = 24 * fph;
        let fn0: u128 = (fabs as u128) % (fp24 as u128);
        let tens: u128 = fn0 / (fp10 as u128);
        let rem: u128 = fn0 % (fp10 as u128);
        proof {
            // The ten-minute block count is small: the numerator is a
            // 64-bit value and the divisor is at least 17982.
            vstd::arithmetic::div_mod::lemma_mod_decreases(fabs as nat, fp24 as nat);
            lemma_div_is_ordered_by_denominator(fn0 as int, 17982, fp10 as int);
            lemma_div_is_ordered(fn0 as int, i64::MAX as int, 17982);
            lemma_div_pos_is_pos(fn0 as int, fp10 as int);
            assert(tens as int <= 0x7fff_ffff_ffff_ffffint / 17982);
            // The per-minute skip count is a 64-bit value over 15ish.
            assert(dfpm_of(self@.rate) <= (p.round() * 66666) / 1000000 + 1) by {
                let sc = Rat { n: p.round() * 66666, d: 1000000 };
                lemma_fundamental_div_mod(sc.n, sc.d);
                lemma_mod_division_less_than_divisor(sc.n, sc.d);
            }
            lemma_round_abs_bound(p);
            lemma_mul_abs_bound(p.round(), 66666, i64::MAX as int, 66666);
            lemma_div_is_ordered(p.round() * 66666, i64::MAX as int * 66666, 1000000);
            lemma_div_pos_is_pos(p.round() * 66666, 1000000);
            assert(0 <= dfpm_of(self@.rate) <= i64::MAX as int * 66666 / 1000000 + 1);
            assert(dfpm_of(self@.rate) <= i64::MAX as int);
            assert(dpm as int == dfpm_of(self@.rate));
            assert(dpm as int <= i64::MAX as int * 66666 / 1000000 + 1);
            // Bound each term of the adjustment.
            lemma_mul_abs_bound(
                (dpm as int) * 9,
                tens as int,
                9 * (i64::MAX as int * 66666 / 1000000 + 1),
                0x7fff_ffff_ffff_ffffint / 17982,
            );
            lemma_mod_division_less_than_divisor(fn0 as int, fp10 as int);
            if rem > dpm as u128 {
                vstd::arithmetic::div_mod::lemma_mod_decreases(fn0 as nat, fp10 as nat);
                lemma_mul_abs_bound(
                    dpm as int,
                    rem as int - dpm as int,
                    i64::MAX as int * 66666 / 1000000 + 1,
                    i64::MAX as int,
                );
                lemma_div_nonincreasing(
                    (dpm as int) * (rem as int - dpm as int),
                    fpm as int,
                );
                lemma_div_pos_is_pos(
                    (dpm as int) * (rem as int - dpm as int),
                    fpm as int,
                );
            }
        }
        let adj: u128 = if rem > (dpm as u128) {
            (dpm as u128) * 9 * tens + (dpm as u128) * (rem - (dpm as u128)) / (fpm as u128)
        } else {
            (dpm as u128) * 9 * tens
        };
        adj as i128
    }

    /// The displayed sections of this timecode: the magnitude of the
    /// frame number, drop-frame adjusted where the rate calls for it,
    /// decomposed against the timebase.  The timebase must be positive
    /// and the hours place must be representable.
    pub fn sections(&self) -> (r: TimecodeSections)
        requires
            self.wf(),
            timebase_of(self@.rate).n >= 1,
            sections_of(self@).hours <= i64::MAX,
        ensures
            r.negative == sections_of(self@).negative,
            r.hours as int == sections_of(self@).hours,
            r.minutes as int == sections_of(self@).minutes,
            r.seconds as int == sections_of(self@).seconds,
            r.frames as int == sections_of(self@).frames,
            r.hours >= 0 && 0 <= r.minutes < 60 && 0 <= r.seconds < 60 && r.frames >= 0,
    {
        let ghost tb = timebase_of(self@.rate);
        let f = self.frames();
        let fabs: i64 = if f < 0 {
            -f
        } else {
            f
        };
        let adj: i128 = if self.rate.ntsc() == Ntsc::DropFrame {
            self.df_display_adjustment(fabs)
        } else {
            0
        };
        let tbr = self.rate.timebase();
        let bn = tbr.numer();
        let bd = tbr.denom();
        proof {
            if self@.rate.ntsc == Ntsc::DropFrame {
                assert(tb.d == 1);
                assert(bd as int == 1);
            } else {
                assert(adj == 0);
                lemma_mul_abs_bound(
                    fabs as int,
                    tb.d,
                    0x8000_0000_0000_0000,
                    0x8000_0000_0000_0000,
                );
                assert((fabs as int + adj as int) * (bd as int) == fabs as int * tb.d);
            }
        }
        let ftot: i128 = (fabs as i128) + adj;
        let n0: u128 = (ftot as u128) * (bd as u128);
        let dh: u128 = 3600 * (bn as u128);
        let dm: u128 = 60 * (bn as u128);
        let h: u128 = n0 / dh;
        let a1: u128 = n0 % dh;
        let m: u128 = a1 / dm;
        let a2: u128 = a1 % dm;
        let se: u128 = a2 / (bn as u128);
        let a3: u128 = a2 % (bn as u128);
        proof {
            let n0i = n0 as int;
            lemma_mod_division_less_than_divisor(n0i, 3600 * tb.n);
            lemma_mod_division_less_than_divisor(a1 as int, 60 * tb.n);
            lemma_mod_division_less_than_divisor(a2 as int, tb.n);
            // Minutes and seconds stay below sixty.
            lemma_div_is_ordered(a1 as int, 3600 * tb.n - 1, 60 * tb.n);
            lemma_fundamental_div_mod_converse_div(3600 * tb.n - 1, 60 * tb.n, 59, 60 * tb.n - 1);
            assert(3600 * tb.n - 1 == 59 * (60 * tb.n) + (60 * tb.n - 1)) by (nonlinear_arith);
            lemma_div_is_ordered(a2 as int, 60 * tb.n - 1, tb.n);
            lemma_fundamental_div_mod_converse_div(60 * tb.n - 1, tb.n, 59, tb.n - 1);
            assert(60 * tb.n - 1 == 59 * tb.n + (tb.n - 1)) by (nonlinear_arith);
            lemma_div_pos_is_pos(a1 as int, 60 * tb.n);
            lemma_div_pos_is_pos(a2 as int, tb.n);
            lemma_div_pos_is_pos(n0i, 3600 * tb.n);
            lemma_round_abs_bound(Rat { n: a3 as int, d: tb.d });
        }
        let ff = round_pair(a3 as i128, bd as i128);
        TimecodeSections {
            negative: self.seconds.is_negative(),
            hours: h as i64,
            minutes: m as i64,
            seconds: se as i64,
            frames: ff as i64,
        }
    }

    /// The timecode string, such as `01:00:00:00`, with a semicolon
    /// before the frames for drop-frame rates and a leading minus for
    /// negative values.
    pub fn timecode(&self) -> (r: String)
        requires
            self.wf(),
            timebase_of(self@.rate).n >= 1,
            sections_of(self@).hours <= i64::MAX,
        ensures
            r@ == tc_display(self@),
    {
        let sec = self.sections();
        let mut out: String = if sec.negative {
            "-".to_owned()
        } else {
            "".to_owned()
        };
        out.append(crate::text::u64_to_dec_pad2(sec.hours as u64).as_str());
        out.append(":".to_owned().as_str());
        out.append(crate::text::u64_to_dec_pad2(sec.minutes as u64).as_str());
        out.append(":".to_owned().as_str());
        out.append(crate::text::u64_to_dec_pad2(sec.seconds as u64).as_str());
        if self.rate.ntsc() == Ntsc::DropFrame {
            out.append(";".to_owned().as_str());
        } else {
            out.append(":".to_owned().as_str());
        }
        out.append(crate::text::u64_to_dec_pad2(sec.frames as u64).as_str());
        proof {
            reveal_strlit("-");
            reveal_strlit("");
            reveal_strlit(":");
            reveal_strlit(";");
            assert(out@ =~= tc_display(self@));
        }
        out
    }


    /// The footage text of this timecode in the given film format,
    /// such as `5400+13` or `12+01.1` for three-perforation film.
    pub fn feet_and_frames(&self, rep: FilmFormat) -> (r: String)
        requires
            self.wf(),
        ensures
            r@ == ff_display(self@, rep),
    {
        proof {
            lemma_format_constants();
        }
        let f = self.frames();
        let fabs: i64 = if f < 0 {
            -f
        } else {
            f
        };
        let ppfr = rep.perfs_per_frame();
        let ppf = rep.perfs_per_foot();
        let modfeet = rep.footage_modulus_footage_count();
        proof {
            crate::rational::lemma_mul_abs_bound(fabs as int, ppfr as int, i64::MAX as int, 4);
        }
        let last: u128 = (fabs as u128) * (ppfr as u128) + (ppfr as u128) - 1;
        let feet: u128 = last / (ppf as u128);
        let fif: u128 = (last % (ppf as u128)) / (ppfr as u128);
        let perf: u128 = feet % (modfeet as u128);
        proof {
            let ghost lasti = last as int;
            vstd::arithmetic::div_mod::lemma_div_nonincreasing(lasti, ppf as int);
            vstd::arithmetic::div_mod::lemma_div_pos_is_pos(lasti, ppf as int);
            vstd::arithmetic::div_mod::lemma_mod_division_less_than_divisor(lasti, ppf as int);
            vstd::arithmetic::div_mod::lemma_div_nonincreasing(
                lasti % (ppf as int),
                ppfr as int,
            );
            vstd::arithmetic::div_mod::lemma_div_pos_is_pos(lasti % (ppf as int), ppfr as int);
            vstd::arithmetic::div_mod::lemma_mod_division_less_than_divisor(
                feet as int,
                modfeet as int,
            );
            vstd::arithmetic::div_mod::lemma_div_pos_is_pos(feet as int, modfeet as int);
        }
        let mut out: String = if self.seconds.is_negative() {
            "-".to_owned()
        } else {
            "".to_owned()
        };
        out.append(crate::text::u64_to_dec(feet as u64).as_str());
        out.append("+".to_owned().as_str());
        out.append(crate::text::u64_to_dec_pad2(fif as u64).as_str());
        if rep.allows_perf_field() {
            out.append(".".to_owned().as_str());
            out.append(crate::text::u64_to_dec(perf as u64).as_str());
        }
        proof {
            reveal_strlit("-");
            reveal_strlit("");
            reveal_strlit("+");
            reveal_strlit(".");
            assert(out@ =~= ff_display(self@, rep));
        }
        out
    }

    /// The true elapsed runtime of this timecode, `HH:MM:SS` and the
    /// fraction rounded to `precision` places, with trailing zeros
    /// trimmed and a single zero place kept when the fraction is zero.
    /// The exact arithmetic holds up to eighteen places.
    #[verifier::rlimit(100)]
    #[verifier::spinoff_prover]
    pub fn runtime(&self, precision: usize) -> (r: String)
        requires
            self.wf(),
            precision <= 18,
        ensures
            r@ == runtime_display(self@, precision as nat),
    {
        let sn = self.seconds.numer();
        let sd = self.seconds.denom();
        let na: i64 = if sn < 0 {
            -sn
        } else {
            sn
        };
        let pw: u64 = crate::text::pow10_u64(precision);
        proof {
            crate::text::lemma_pow10_le(precision as nat, 18);
            assert(crate::text::pow10(18) == 1000000000000000000) by {
                reveal_with_fuel(crate::text::pow10, 19);
            }
            crate::rational::lemma_mul_abs_bound(
                na as int,
                pw as int,
                i64::MAX as int,
                1000000000000000000,
            );
            crate::rational::lemma_round_abs_bound(
                Rat { n: (na as int) * (pw as int), d: sd as int },
            );
        }
        let sc: i128 = round_pair((na as i128) * (pw as i128), sd as i128);
        let scu: u128 = sc as u128;
        let tsec: u128 = scu / (pw as u128);
        let fu0: u128 = scu % (pw as u128);
        let h: u128 = tsec / 3600;
        let m: u128 = tsec % 3600 / 60;
        let se: u128 = tsec % 60;
        proof {
            let ghost sci = sc as int;
            vstd::arithmetic::div_mod::lemma_div_pos_is_pos(sci, pw as int);
            vstd::arithmetic::div_mod::lemma_div_nonincreasing(sci, pw as int);
            vstd::arithmetic::div_mod::lemma_mod_division_less_than_divisor(sci, pw as int);
            vstd::arithmetic::div_mod::lemma_div_is_ordered(
                sci,
                (na as int) * (pw as int),
                pw as int,
            );
            vstd::arithmetic::div_mod::lemma_div_multiples_vanish(na as int, pw as int);
            assert((na as int) * (pw as int) == (pw as int) * (na as int)) by (nonlinear_arith);
            assert((na as int) * (pw as int) >= 0) by (nonlinear_arith)
                requires
                    na >= 0,
                    pw >= 1,
            {
            }
            assert(tsec as int <= na as int);
            vstd::arithmetic::div_mod::lemma_div_pos_is_pos(tsec as int, 3600);
            vstd::arithmetic::div_mod::lemma_div_nonincreasing(tsec as int, 3600);
            vstd::arithmetic::div_mod::lemma_mod_division_less_than_divisor(tsec as int, 3600);
            vstd::arithmetic::div_mod::lemma_mod_division_less_than_divisor(tsec as int, 60);
            vstd::arithmetic::div_mod::lemma_div_is_ordered(
                tsec as int % 3600,
                3599,
                60,
            );
            vstd::arithmetic::div_mod::lemma_div_pos_is_pos(tsec as int % 3600, 60);
            assert(3599int / 60 == 59);
        }
        let mut out: String = if self.seconds.is_negative() {
            "-".to_owned()
        } else {
            "".to_owned()
        };
        out.append(crate::text::u64_to_dec_pad2(h as u64).as_str());
        out.append(":".to_owned().as_str());
        out.append(crate::text::u64_to_dec_pad2(m as u64).as_str());
        out.append(":".to_owned().as_str());
        out.append(crate::text::u64_to_dec_pad2(se as u64).as_str());
        out.append(".".to_owned().as_str());
        if fu0 == 0 {
            out.append("0".to_owned().as_str());
        } else {
            let mut fu: u64 = fu0 as u64;
            let mut w: usize = precision;
            let ghost fu_start = fu;
            let ghost w_start = w;
            while fu % 10 == 0 && w > 0
                invariant
                    trim_frac(fu as int, w as nat) == trim_frac(
                        fu_start as int,
                        w_start as nat,
                    ),
                    fu > 0,
                decreases w,
            {
                proof {
                    vstd::arithmetic::div_mod::lemma_div_pos_is_pos(fu as int, 10);
                    vstd::arithmetic::div_mod::lemma_fundamental_div_mod(fu as int, 10);
                }
                fu = fu / 10;
                w = w - 1;
            }
            let mut tail: String = "".to_owned();
            let ghost fu_t = fu;
            let ghost w_t = w;
            proof {
                reveal_strlit("");
                assert(tail@ =~= Seq::<char>::empty());
                assert(crate::text::dec_digits_padded(fu_t as int, w_t as nat)
                    =~= crate::text::dec_digits_padded(fu_t as int, w_t as nat) + tail@);
            }
            while w > 0
                invariant
                    crate::text::dec_digits_padded(fu_t as int, w_t as nat)
                        == crate::text::dec_digits_padded(fu as int, w as nat) + tail@,
                    w <= w_t,
                decreases w,
            {
                let d = fu % 10;
                let ghost old_tail = tail@;
                let mut piece: String = crate::text::digit_string(d);
                piece.append(tail.as_str());
                tail = piece;
                proof {
                    assert(tail@ =~= seq![crate::text::digit_char(fu as int % 10)] + old_tail);
                    assert(crate::text::dec_digits_padded(fu as int, w as nat)
                        == crate::text::dec_digits_padded(fu as int / 10, (w - 1) as nat).push(
                        crate::text::digit_char(fu as int % 10),
                    ));
                    assert(crate::text::dec_digits_padded(fu as int / 10, (w - 1) as nat).push(
                        crate::text::digit_char(fu as int % 10),
                    ) + old_tail =~= crate::text::dec_digits_padded(fu as int / 10, (w - 1) as nat)
                        + tail@);
                }
                fu = fu / 10;
                w = w - 1;
            }
            proof {
                assert(crate::text::dec_digits_padded(fu as int, 0) =~= Seq::<char>::empty());
                if w_t > 0 {
                    assert(fu_t % 10 != 0);
                    assert(trim_frac(fu_t as int, w_t as nat) == crate::text::dec_digits_padded(
                        fu_t as int,
                        w_t as nat,
                    ));
                } else {
                    assert(trim_frac(fu_t as int, w_t as nat) =~= Seq::<char>::empty());
                    assert(crate::text::dec_digits_padded(fu_t as int, w_t as nat)
                        =~= Seq::<char>::empty());
                }
                assert(trim_frac(fu0 as int, precision as nat) == crate::text::dec_digits_padded(
                    fu_t as int,
                    w_t as nat,
                ));
                assert(crate::text::dec_digits_padded(fu_t as int, w_t as nat) =~= tail@);
                assert(tail@ == trim_frac(fu0 as int, precision as nat));
            }
            out.append(tail.as_str());
        }
        proof {
            reveal_strlit("-");
            reveal_strlit("");
            reveal_strlit(":");
            reveal_strlit(".");
            reveal_strlit("0");
            let sc_s = runtime_scaled(self@, precision as nat);
            let pw_s = crate::text::pow10(precision as nat);
            assert(sc as int == sc_s);
            assert(tsec as int == sc_s / pw_s);
            assert(fu0 as int == sc_s % pw_s);
            assert(h as int == tsec as int / 3600);
            assert(m as int == tsec as int % 3600 / 60);
            assert(se as int == tsec as int % 60);
            assert(out@ =~= runtime_display(self@, precision as nat));
        }
        out
    }

    /// The timecode the same distance from zero on the other side.
    pub fn negate(&self) -> (r: Timecode)
        requires
            self.wf(),
        ensures
            r.wf(),
            r@.rate == self@.rate,
            r@.seconds == self@.seconds.neg(),
            tc_frames(r@) == -tc_frames(self@),
    {
        proof {
            assert(self@.seconds.mul(self@.rate.playback).wf()) by (nonlinear_arith)
                requires
                    self@.seconds.d >= 1,
                    self@.rate.playback.d >= 1,
            {
            }
            lemma_rat_neg_round(self@.seconds.mul(self@.rate.playback));
            assert((-self@.seconds.n) * self@.rate.playback.n == -(self@.seconds.n
                * self@.rate.playback.n)) by (nonlinear_arith);
            assert(self@.seconds.neg().mul(self@.rate.playback) == self@.seconds.mul(
                self@.rate.playback,
            ).neg());
        }
        Timecode { seconds: self.seconds.negate(), rate: self.rate }
    }

    /// The magnitude of the timecode: negative values flip sign.
    pub fn abs(&self) -> (r: Timecode)
        requires
            self.wf(),
        ensures
            r.wf(),
            r@.rate == self@.rate,
            r@.seconds == self@.seconds.abs_val(),
            tc_frames(r@) == iabs(tc_frames(self@)),
    {
        if self.seconds.is_negative() {
            let r = self.negate();
            proof {
                assert(self@.seconds.neg() == self@.seconds.abs_val());
                assert(self@.seconds.mul(self@.rate.playback).wf()) by (nonlinear_arith)
                    requires
                        self@.seconds.d >= 1,
                        self@.rate.playback.d >= 1,
                {
                }
                lemma_round_abs_bound(self@.seconds.mul(self@.rate.playback));
                assert(self@.seconds.mul(self@.rate.playback).n < 0) by (nonlinear_arith)
                    requires
                        self@.seconds.n < 0,
                        self@.rate.playback.n >= 1,
                {
                }
            }
            r
        } else {
            proof {
                assert(self@.seconds.abs_val() == self@.seconds);
                assert(self@.seconds.mul(self@.rate.playback).wf()) by (nonlinear_arith)
                    requires
                        self@.seconds.d >= 1,
                        self@.rate.playback.d >= 1,
                {
                }
                lemma_round_abs_bound(self@.seconds.mul(self@.rate.playback));
                assert(self@.seconds.mul(self@.rate.playback).n >= 0) by (nonlinear_arith)
                    requires
                        self@.seconds.n >= 0,
                        self@.rate.playback.n >= 1,
                {
                }
            }
            *self
        }
    }
}

/// Timecodes are equal exactly when they mark the same real-world
/// moment, whatever their rates.
impl PartialEq for Timecode {
    fn eq(&self, other: &Timecode) -> (r: bool) {
        self.seconds.eq_val(&other.seconds)
    }
}

impl vstd::std_specs::cmp::PartialEqSpecImpl for Timecode {
    open spec fn obeys_eq_spec() -> bool {
        true
    }

    open spec fn eq_spec(&self, other: &Timecode) -> bool {
        self@.seconds.veq(other@.seconds)
    }
}

impl Eq for Timecode {

}

/// Timecodes order by real-world elapsed seconds, whatever their rates.
impl PartialOrd for Timecode {
    fn partial_cmp(&self, other: &Timecode) -> (r: Option<core::cmp::Ordering>) {
        if self.seconds.eq_val(&other.seconds) {
            Some(core::cmp::Ordering::Equal)
        } else if self.seconds.lt(&other.seconds) {
            Some(core::cmp::Ordering::Less)
        } else {
            Some(core::cmp::Ordering::Greater)
        }
    }
}

impl vstd::std_specs::cmp::PartialOrdSpecImpl for Timecode {
    open spec fn obeys_partial_cmp_spec() -> bool {
        true
    }

    open spec fn partial_cmp_spec(&self, other: &Timecode) -> Option<core::cmp::Ordering> {
        if self@.seconds.veq(other@.seconds) {
            Some(core::cmp::Ordering::Equal)
        } else if self@.seconds.lt(other@.seconds) {
            Some(core::cmp::Ordering::Less)
        } else {
            Some(core::cmp::Ordering::Greater)
        }
    }
}

/// The sequence is in ascending order of real-world seconds.
pub open spec fn tc_sorted(s: Seq<Timecode>) -> bool {
    forall|i: int, j: int| #![trigger s[i], s[j]] 0 <= i < j < s.len() ==> s[i]@.seconds.le(s[j]@.seconds)
}

/// Inserting an element anywhere inserts it into the multiset.
proof fn lemma_insert_to_multiset(s: Seq<Timecode>, k: int, x: Timecode)
    requires
        0 <= k <= s.len(),
    ensures
        s.insert(k, x).to_multiset() == s.to_multiset().insert(x),
{
    broadcast use vstd::seq_lib::group_to_multiset_ensures;

    let t = s.insert(k, x);
    assert(t.remove(k) =~= s);
    assert(t[k] == x);
    assert(s.to_multiset() =~= t.to_multiset().remove(x));
    assert(t.contains(x));
    assert(t.to_multiset().count(x) > 0);
    assert(t.to_multiset() =~= t.to_multiset().remove(x).insert(x));
    assert(t.to_multiset() =~= s.to_multiset().insert(x));
}

/// Ordering by `le` is transitive.
proof fn lemma_rat_le_trans(a: Rat, b: Rat, c: Rat)
    requires
        a.wf(),
        b.wf(),
        c.wf(),
        a.le(b),
        b.le(c),
    ensures
        a.le(c),
{
    assert(a.n * c.d <= c.n * a.d) by (nonlinear_arith)
        requires
            a.n * b.d <= b.n * a.d,
            b.n * c.d <= c.n * b.d,
            a.d >= 1,
            b.d >= 1,
            c.d >= 1,
    {
    }
}

/// Sort a list of timecodes into ascending order of real-world seconds,
/// keeping exactly the same collection of values.  Timecodes at
/// different rates order by true elapsed time.
#[verifier::loop_isolation(false)]
pub fn sort_timecodes(list: &mut Vec<Timecode>)
    requires
        forall|i: int| 0 <= i < old(list)@.len() ==> #[trigger] old(list)@[i].wf(),
    ensures
        final(list)@.len() == old(list)@.len(),
        tc_sorted(final(list)@),
        final(list)@.to_multiset() == old(list)@.to_multiset(),
{
    let ghost orig = list@;
    let mut k: usize = 0;
    while k < list.len()
        invariant
            k <= list@.len(),
            list@.len() == orig.len(),
            tc_sorted(list@.take(k as int)),
            list@.to_multiset() == orig.to_multiset(),
            forall|i: int| 0 <= i < list@.len() ==> #[trigger] list@[i].wf(),
        decreases list@.len() - k,
    {
        let ghost before = list@;
        let x = list.remove(k);
        proof {
            broadcast use vstd::seq_lib::group_to_multiset_ensures;

        }
        proof {
            assert(forall|t: int| 0 <= t < k ==> list@[t] == before[t]);
        }
        let mut pos: usize = k;
        while pos > 0 && x.seconds.lt(&list[pos - 1].seconds)
            invariant
                pos <= k,
                list@ == before.remove(k as int),
                forall|j: int| pos <= j < k ==> x@.seconds.le(#[trigger] list@[j]@.seconds),
            decreases pos,
        {
            proof {
                assert forall|j: int| pos - 1 <= j < k implies x@.seconds.le(
                    #[trigger] list@[j]@.seconds,
                ) by {
                    if j > pos - 1 {
                        assert(before[k as int].wf());
                        assert(before[pos - 1].wf());
                        assert(before[j].wf());
                        assert(list@[pos - 1] == before[pos - 1] && list@[j] == before[j]);
                        assert(before.take(k as int)[pos - 1] == before[pos - 1]);
                        assert(before.take(k as int)[j] == before[j]);
                        assert(before[pos - 1]@.seconds.le(before[j]@.seconds));
                        lemma_rat_le_trans(x@.seconds, list@[pos - 1]@.seconds, list@[j]@.seconds);
                    }
                }
            }
            pos = pos - 1;
        }
        list.insert(pos, x);
        proof {
            broadcast use vstd::seq_lib::group_to_multiset_ensures;

            let cur = list@;
            let removed = before.remove(k as int);
            assert(cur == removed.insert(pos as int, x));
            // The collection of values is unchanged.
            assert(removed.to_multiset() =~= before.to_multiset().remove(x));
            lemma_insert_to_multiset(removed, pos as int, x);
            assert(before.contains(x)) by {
                assert(before[k as int] == x);
            }
            assert(before.to_multiset().count(x) > 0);
            assert(before.to_multiset().remove(x).insert(x) =~= before.to_multiset());
            assert(cur.to_multiset() == orig.to_multiset());
            // The prefix of length k + 1 is sorted.
            assert forall|i: int, j: int| #![trigger cur.take(k as int + 1)[i], cur.take(k as int + 1)[j]]
                0 <= i < j < k + 1 implies cur.take(k as int + 1)[i]@.seconds.le(
                cur.take(k as int + 1)[j]@.seconds,
            ) by {
                assert(forall|t: int| 0 <= t < pos ==> cur[t] == before[t]);
                assert(forall|t: int| pos < t < k + 1 ==> cur[t] == removed[t - 1]);
                assert(forall|t: int| 0 <= t < k ==> removed[t] == before[t]);
                assert(forall|a: int, b: int|
                    0 <= a < b < k ==> before.take(k as int)[a] == before[a] && before.take(
                        k as int,
                    )[b] == before[b]);
                if j < pos {
                    assert(before[i]@.seconds.le(before[j]@.seconds));
                } else if j == pos {
                    assert(pos >= 1);
                    assert(!x@.seconds.lt(removed[pos - 1]@.seconds));
                    assert(before[pos - 1]@.seconds.le(x@.seconds));
                    if i < pos - 1 {
                        assert(before[k as int].wf());
                        assert(before[pos - 1].wf());
                        assert(before[i].wf());
                        assert(before[i]@.seconds.le(before[pos - 1]@.seconds));
                        lemma_rat_le_trans(
                            before[i]@.seconds,
                            before[pos - 1]@.seconds,
                            x@.seconds,
                        );
                    }
                } else if i == pos {
                    assert(cur[j] == before[j - 1]);
                    assert(x@.seconds.le(before[j - 1]@.seconds));
                } else if i < pos {
                    assert(cur[i] == before[i] && cur[j] == before[j - 1]);
                    assert(before[i]@.seconds.le(before[j - 1]@.seconds));
                } else {
                    assert(cur[i] == before[i - 1] && cur[j] == before[j - 1]);
                    assert(before[i - 1]@.seconds.le(before[j - 1]@.seconds));
                }
            }
        }
        k = k + 1;
    }
    proof {
        assert(list@.take(list@.len() as int) =~= list@);
    }
}

} // verus!
