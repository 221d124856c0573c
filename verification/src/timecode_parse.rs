//! The text forms a timecode can be built from: colon-or-semicolon
//! timecode strings, `feet+frames` footage strings, and decimal runtime
//! strings, each with its grammar stated over character sequences.

use crate::errors::TimecodeParseError;
use crate::framerate::{dfpm_of, timebase_of, Framerate, Ntsc, RateView};
use crate::rational::{fits, pair_bound, round_pair, Rat, Rational};
use crate::text::{
    all_digits, dec_val, first_idx, is_dec_digit, lemma_dec_val_nonneg, parse_digits_i64,
};
use crate::timecode::{
    frames_ok, s_allows_perf, s_modulus_feet, s_modulus_frames, secs_store_ok, tc_frames,
    FeetFramesStr, FilmFormat, Timecode,
};
use vstd::prelude::*;
use vstd::string::StrSliceExecFns;

verus! {

/// The result of the timecode constructors.
pub type TimecodeParseResult = Result<Timecode, TimecodeParseError>;

/// The value `Timecode::with_premiere_ticks` accepts: a signed count of
/// editing-application ticks.
pub type PremiereTicksSource = i64;

/// A value a frame count can be built from.
pub enum FramesSource {
    /// A plain frame number.
    Integer(i64),
    /// Text holding a timecode or a `feet+frames` footage reference.
    Text(String),
    /// A footage text with an explicit film format.
    FeetFrames(FeetFramesStr),
}

/// A value a seconds count can be built from.
pub enum SecondsSource {
    /// An exact fraction `n / d` of seconds.
    Rational(i64, i64),
    /// A runtime text such as `01:30:00.5`.
    Text(String),
}

/// How a frame-count source is disposed of.
pub ghost enum TcParse {
    /// A frame number to build the timecode on.
    Frames(int),
    /// A numeric component did not fit in 64 bits.
    Conversion,
    /// No known pattern matched.
    UnknownFormat,
    /// A drop-frame string carried a frame number that is skipped.
    DropFrameValue,
}

/// A timecode separator character.
pub open spec fn is_tc_sep(c: char) -> bool {
    c == ':' || c == ';'
}

/// Index of the first separator in `s`, or `-1`.
pub open spec fn first_sep(s: Seq<char>) -> int
    decreases s.len(),
{
    if s.len() == 0 {
        -1
    } else if is_tc_sep(s[0]) {
        0
    } else {
        let r = first_sep(s.skip(1));
        if r == -1 {
            -1
        } else {
            r + 1
        }
    }
}

/// What `first_sep` finds.
pub proof fn lemma_first_sep(s: Seq<char>)
    ensures
        first_sep(s) == -1 ==> forall|i: int| 0 <= i < s.len() ==> !is_tc_sep(s[i]),
        first_sep(s) != -1 ==> 0 <= first_sep(s) < s.len() && is_tc_sep(s[first_sep(s)]) && forall|
            j: int,
        | 0 <= j < first_sep(s) ==> !is_tc_sep(s[j]),
    decreases s.len(),
{
    if s.len() == 0 {
    } else if is_tc_sep(s[0]) {
    } else {
        lemma_first_sep(s.skip(1));
        let r = first_sep(s.skip(1));
        if r == -1 {
            assert forall|i: int| 0 <= i < s.len() implies !is_tc_sep(s[i]) by {
                if i > 0 {
                    assert(s.skip(1)[i - 1] == s[i]);
                }
            }
        } else {
            assert(s[r + 1] == s.skip(1)[r]);
            assert forall|j: int| 0 <= j < r + 1 implies !is_tc_sep(s[j]) by {
                if j > 0 {
                    assert(s.skip(1)[j - 1] == s[j]);
                }
            }
        }
    }
}

/// Every character is a digit or a separator.
pub open spec fn digits_or_seps(s: Seq<char>) -> bool {
    forall|i: int| 0 <= i < s.len() ==> is_dec_digit(#[trigger] s[i]) || is_tc_sep(s[i])
}

/// The values of the separator-delimited digit runs, left to right.
pub open spec fn group_vals(s: Seq<char>) -> Seq<int>
    decreases s.len(),
{
    let i = first_sep(s);
    if !(0 <= i < s.len()) {
        seq![dec_val(s)]
    } else {
        seq![dec_val(s.take(i))] + group_vals(s.skip(i + 1))
    }
}


/// The character shape of a timecode-like body: digits and separators
/// only, a digit first, and a digit after every separator.
pub open spec fn tc_chars_shape(b: Seq<char>) -> bool {
    &&& b.len() >= 1
    &&& is_dec_digit(b[0])
    &&& digits_or_seps(b)
    &&& (forall|i: int|
        0 <= i < b.len() && is_tc_sep(#[trigger] b[i]) ==> i + 1 < b.len() && is_dec_digit(
            b[i + 1],
        ))
}

/// The body of a timecode string after its sign: it starts and ends on
/// a digit, holds only digits and separators, every separator is
/// followed by a digit, and it has at most four groups.
pub open spec fn matches_tc_body(s: Seq<char>) -> bool {
    tc_chars_shape(s) && group_vals(s).len() <= 4
}

/// The sign-stripped body of a timecode or footage text.
pub open spec fn tc_strip(s: Seq<char>) -> Seq<char> {
    if s.len() > 0 && s[0] == '-' {
        s.skip(1)
    } else {
        s
    }
}

/// The text carries a leading minus.
pub open spec fn tc_neg(s: Seq<char>) -> bool {
    s.len() > 0 && s[0] == '-'
}

/// Every group value is a representable non-negative count.
pub open spec fn vals_ok(vs: Seq<int>) -> bool {
    forall|i: int| 0 <= i < vs.len() ==> 0 <= #[trigger] vs[i] <= i64::MAX
}

/// The hours place of a parsed group list (missing places are zero).
pub open spec fn vals_hours(vs: Seq<int>) -> int {
    if vs.len() >= 4 {
        vs[vs.len() - 4]
    } else {
        0
    }
}

/// The minutes place of a parsed group list.
pub open spec fn vals_minutes(vs: Seq<int>) -> int {
    if vs.len() >= 3 {
        vs[vs.len() - 3]
    } else {
        0
    }
}

/// The seconds place of a parsed group list.
pub open spec fn vals_seconds(vs: Seq<int>) -> int {
    if vs.len() >= 2 {
        vs[vs.len() - 2]
    } else {
        0
    }
}

/// Disposition of a parsed timecode body under a rate: drop-frame
/// strings reject skipped frame numbers, and the remaining places are
/// folded into a frame count against the timebase, with the drop-frame
/// adjustment subtracted and the sign applied last.
pub open spec fn tc_vals_outcome(neg: bool, vs: Seq<int>, v: RateView) -> TcParse {
    if !vals_ok(vs) {
        TcParse::Conversion
    } else {
        let hh = vals_hours(vs);
        let mm = vals_minutes(vs);
        let ss = vals_seconds(vs);
        let ff = vs.last();
        let tm = 60 * hh + mm;
        if v.ntsc == Ntsc::DropFrame && ff < dfpm_of(v) && ss == 0 && mm % 10 != 0 {
            TcParse::DropFrameValue
        } else {
            let tb = timebase_of(v);
            let num = (ss + mm * 60 + hh * 3600) * tb.n + ff * tb.d;
            if num >= pair_bound() {
                TcParse::Conversion
            } else if v.ntsc == Ntsc::DropFrame && dfpm_of(v) * (tm - tm / 10) > i64::MAX {
                TcParse::Conversion
            } else {
                let adj: int = if v.ntsc == Ntsc::DropFrame {
                    -(dfpm_of(v) * (tm - tm / 10))
                } else {
                    0
                };
                let f0 = (Rat { n: num, d: tb.d }).round() + adj;
                let f = if neg {
                    -f0
                } else {
                    f0
                };
                if fits(f) {
                    TcParse::Frames(f)
                } else {
                    TcParse::Conversion
                }
            }
        }
    }
}

/// The footage grammar after the sign: feet digits, a plus, frame
/// digits, and an optional dot followed by a single perforation digit.
pub open spec fn matches_ff(s: Seq<char>) -> bool {
    let pi = first_idx(s, '+');
    &&& pi >= 1
    &&& all_digits(s.take(pi))
    &&& {
        let rest = s.skip(pi + 1);
        let di = first_idx(rest, '.');
        if di == -1 {
            rest.len() >= 1 && all_digits(rest)
        } else {
            di >= 1 && all_digits(rest.take(di)) && rest.len() == di + 2 && is_dec_digit(
                rest[di + 1],
            )
        }
    }
}

/// The footage text carries a perforation-offset field.
pub open spec fn ff_has_perf(s: Seq<char>) -> bool {
    first_idx(s.skip(first_idx(s, '+') + 1), '.') >= 0
}

/// The feet value of a footage body.
pub open spec fn ff_feet(s: Seq<char>) -> int {
    dec_val(s.take(first_idx(s, '+')))
}

/// The frames value of a footage body.
pub open spec fn ff_frames(s: Seq<char>) -> int {
    let rest = s.skip(first_idx(s, '+') + 1);
    let di = first_idx(rest, '.');
    if di == -1 {
        dec_val(rest)
    } else {
        dec_val(rest.take(di))
    }
}

/// The format a footage text is read in: an explicit hint wins unless
/// it cannot carry the perforation field present; otherwise a
/// perforation field means three-perforation film, and four-perforation
/// film is the default.
pub open spec fn ff_format(has_perf: bool, hint: Option<FilmFormat>) -> Option<FilmFormat> {
    match hint {
        Some(f) => if has_perf && !s_allows_perf(f) {
            None
        } else {
            Some(f)
        },
        None => if has_perf {
            Some(FilmFormat::FF35mm3perf)
        } else {
            Some(FilmFormat::FF35mm4perf)
        },
    }
}

/// Disposition of a parsed footage body: whole footage moduli
/// contribute their full frame count, leftover feet contribute the
/// whole frames cut from each foot, and the in-foot frames are added.
pub open spec fn ff_vals_outcome(neg: bool, s: Seq<char>, hint: Option<FilmFormat>) -> TcParse {
    let feet = ff_feet(s);
    let fr = ff_frames(s);
    if feet > i64::MAX || fr > i64::MAX {
        TcParse::Conversion
    } else {
        match ff_format(ff_has_perf(s), hint) {
            None => TcParse::UnknownFormat,
            Some(fmt) => {
                let total = fr + (feet / s_modulus_feet(fmt)) * s_modulus_frames(fmt) + (feet
                    % s_modulus_feet(fmt)) * (s_modulus_frames(fmt) / s_modulus_feet(fmt));
                let f = if neg {
                    -total
                } else {
                    total
                };
                if fits(f) {
                    TcParse::Frames(f)
                } else {
                    TcParse::Conversion
                }
            },
        }
    }
}

/// Disposition of a text frame-count source: the timecode pattern is
/// tried first, then the footage pattern.
pub open spec fn text_frames_outcome(s: Seq<char>, v: RateView) -> TcParse {
    let b = tc_strip(s);
    let neg = tc_neg(s);
    if matches_tc_body(b) {
        tc_vals_outcome(neg, group_vals(b), v)
    } else if matches_ff(b) {
        ff_vals_outcome(neg, b, None)
    } else {
        TcParse::UnknownFormat
    }
}

/// Disposition of any frame-count source.
pub open spec fn frames_src_outcome(src: FramesSource, v: RateView) -> TcParse {
    match src {
        FramesSource::Integer(i) => TcParse::Frames(i as int),
        FramesSource::Text(s) => text_frames_outcome(s@, v),
        FramesSource::FeetFrames(ffs) => {
            let b = tc_strip(ffs@.text);
            if matches_ff(b) {
                ff_vals_outcome(tc_neg(ffs@.text), b, Some(ffs@.format))
            } else {
                TcParse::UnknownFormat
            }
        },
    }
}

/// A frame count only builds a timecode when it and its seconds fit.
pub open spec fn tc_parse_done(o: TcParse, v: RateView) -> TcParse {
    match o {
        TcParse::Frames(f) => if frames_ok(f, v) {
            o
        } else {
            TcParse::Conversion
        },
        _ => o,
    }
}

/// The constructors' results agree with the spec-level disposition.
pub open spec fn outcome_matches_tc(
    o: TcParse,
    v: RateView,
    r: Result<Timecode, TimecodeParseError>,
) -> bool {
    match o {
        TcParse::Frames(f) => r matches Ok(tc) && tc.wf() && tc@.rate == v && tc_frames(tc@) == f,
        TcParse::Conversion => r matches Err(e) && e is Conversion,
        TcParse::UnknownFormat => r matches Err(e) && e is UnknownStrFormat,
        TcParse::DropFrameValue => r matches Err(e) && e is DropFrameValue,
    }
}

/// Decide whether `s[from..)` has the character shape of a timecode
/// body: digits and separators only, digit first, a digit after every
/// separator.
#[verifier::loop_isolation(false)]
fn check_tc_chars(s: &str, from: usize, to: usize) -> (r: bool)
    requires
        from <= to <= s@.len(),
    ensures
        r == tc_chars_shape(s@.subrange(from as int, to as int)),
{
    let ghost b = s@.subrange(from as int, to as int);
    let len = to;
    if from == len {
        return false;
    }
    let c0 = s.get_char(from);
    proof {
        assert(b[0] == s@[from as int]);
    }
    let u0 = c0 as u32;
    if u0 < 48 || u0 > 57 {
        return false;
    }
    let mut i: usize = from;
    while i < len
        invariant
            from <= i <= len,
            forall|j: int|
                from <= j < i ==> is_dec_digit(#[trigger] s@[j]) || is_tc_sep(s@[j]),
            forall|j: int|
                from <= j < i && is_tc_sep(#[trigger] s@[j]) ==> j + 1 < len && is_dec_digit(
                    s@[j + 1],
                ),
        decreases len - i,
    {
        let c = s.get_char(i);
        let u = c as u32;
        if u >= 48 && u <= 57 {
            i = i + 1;
        } else if c == ':' || c == ';' {
            if i + 1 == len {
                proof {
                    assert(b[i - from] == s@[i as int]);
                }
                return false;
            }
            let cn = s.get_char(i + 1);
            let un = cn as u32;
            if un < 48 || un > 57 {
                proof {
                    assert(b[i - from] == s@[i as int]);
                    assert(b[i + 1 - from] == s@[i + 1]);
                }
                return false;
            }
            i = i + 1;
        } else {
            proof {
                assert(b[i - from] == s@[i as int]);
            }
            return false;
        }
    }
    proof {
        assert(forall|j: int| 0 <= j < b.len() ==> b[j] == s@[from + j]);
    }
    true
}


/// Find the first timecode separator at or after `from`.
#[verifier::loop_isolation(false)]
fn scan_sep(s: &str, from: usize, to: usize) -> (r: Option<usize>)
    requires
        from <= to <= s@.len(),
    ensures
        first_sep(s@.subrange(from as int, to as int)) >= 0 ==> r == Some(
            (from + first_sep(s@.subrange(from as int, to as int))) as usize,
        ),
        first_sep(s@.subrange(from as int, to as int)) == -1 ==> r == None::<usize>,
{
    let ghost suf = s@.subrange(from as int, to as int);
    proof {
        lemma_first_sep(suf);
    }
    let len = to;
    let mut i: usize = from;
    while i < len
        invariant
            from <= i <= len,
            forall|j: int| from <= j < i ==> !is_tc_sep(#[trigger] s@[j]),
        decreases len - i,
    {
        let c = s.get_char(i);
        if c == ':' || c == ';' {
            proof {
                let fs = first_sep(suf);
                assert(suf[i - from] == s@[i as int]);
                if fs == -1 {
                    assert(false);
                } else {
                    assert(suf[fs] == s@[from + fs]);
                    if fs < i - from {
                        assert(false);
                    } else if fs > i - from {
                        assert(!is_tc_sep(suf[i - from]));
                        assert(false);
                    }
                }
            }
            return Some(i);
        }
        i = i + 1;
    }
    proof {
        let fs = first_sep(suf);
        if fs >= 0 {
            assert(suf[fs] == s@[from + fs]);
            assert(false);
        }
    }
    None
}

/// Read the separator-delimited digit runs of `s[from..)`.  The list of
/// values always has one entry per group; the flag reports whether every
/// group fit in 64 bits (and then the entries are exact).
#[verifier::loop_isolation(false)]
fn parse_groups(s: &str, from: usize, to: usize) -> (r: (bool, Vec<i64>))
    requires
        from <= to <= s@.len(),
        digits_or_seps(s@.subrange(from as int, to as int)),
    ensures
        r.1@.len() == group_vals(s@.subrange(from as int, to as int)).len(),
        r.0 <==> vals_ok(group_vals(s@.subrange(from as int, to as int))),
        r.0 ==> forall|i: int|
            0 <= i < r.1@.len() ==> r.1@[i] as int == group_vals(
                s@.subrange(from as int, to as int),
            )[i] && r.1@[i] >= 0,
    decreases to - from,
{
    let ghost b = s@.subrange(from as int, to as int);
    let len = to;
    let sep = scan_sep(s, from, to);
    proof {
        lemma_first_sep(b);
        assert(forall|j: int| 0 <= j < b.len() ==> b[j] == s@[from + j]);
    }
    match sep {
        None => {
            proof {
                let fs = first_sep(b);
                if fs != -1 {
                    assert(b[fs] == s@[from + fs]);
                    assert(false);
                }
                assert(b =~= s@.subrange(from as int, len as int));
                assert(all_digits(b));
                lemma_dec_val_nonneg(b);
                assert(group_vals(b) =~= seq![dec_val(b)]);
            }
            match parse_digits_i64(s, from, len) {
                Some(v) => {
                    let mut out: Vec<i64> = Vec::new();
                    out.push(v);
                    proof {
                        assert(out@ =~= seq![v]);
                        assert(group_vals(b)[0] == dec_val(b));
                        assert forall|t: int|
                            0 <= t < group_vals(b).len() implies 0 <= #[trigger] group_vals(b)[t]
                            <= i64::MAX by {
                            assert(t == 0);
                        }
                    }
                    (true, out)
                },
                None => {
                    let mut out: Vec<i64> = Vec::new();
                    out.push(0);
                    proof {
                        assert(out@ =~= seq![0i64]);
                        assert(group_vals(b)[0] == dec_val(b));
                        assert(!vals_ok(group_vals(b)));
                    }
                    (false, out)
                },
            }
        },
        Some(j) => {
            proof {
                let fs = first_sep(b);
                assert(b[j - from] == s@[j as int]);
                if fs == -1 {
                    assert(false);
                } else {
                    assert(b[fs] == s@[from + fs]);
                    if fs < j - from {
                        assert(!is_tc_sep(s@[from + fs]));
                        assert(false);
                    } else if fs > j - from {
                        assert(!is_tc_sep(b[j - from]));
                        assert(false);
                    }
                }
                assert(first_sep(b) == j - from);
                assert(b.take(j - from) =~= s@.subrange(from as int, j as int));
                assert(all_digits(b.take(j - from)));
                lemma_dec_val_nonneg(b.take(j - from));
                assert(b.skip(j - from + 1) =~= s@.subrange(j + 1, to as int));
                assert(digits_or_seps(s@.subrange(j + 1, to as int))) by {
                    assert(forall|t: int|
                        0 <= t < s@.subrange(j + 1, to as int).len() ==> #[trigger] s@.subrange(
                            j + 1,
                            to as int,
                        )[t] == b[j - from + 1 + t]);
                }
            }
            let ghost gv = group_vals(b);
            let ghost tailv = group_vals(s@.subrange(j + 1, to as int));
            proof {
                assert(b.skip(j - from + 1) == s@.subrange(j + 1, to as int));
                assert(gv == seq![dec_val(b.take(j - from))] + tailv);
                assert(gv[0] == dec_val(b.take(j - from)));
                assert(gv.len() == tailv.len() + 1);
                assert(forall|t: int| 0 <= t < tailv.len() ==> gv[t + 1] == #[trigger] tailv[t]);
            }
            let head = parse_digits_i64(s, from, j);
            let (ok_rest, mut rest) = parse_groups(s, j + 1, to);
            match head {
                Some(v) => {
                    let ghost old_rest = rest@;
                    rest.insert(0, v);
                    proof {
                        assert(rest@.len() == old_rest.len() + 1);
                        assert(rest@[0] == v);
                        assert(forall|t: int|
                            0 <= t < old_rest.len() ==> rest@[t + 1] == #[trigger] old_rest[t]);
                        if ok_rest {
                            assert forall|t: int| 0 <= t < gv.len() implies 0 <= #[trigger] gv[t]
                                <= i64::MAX by {
                                if t > 0 {
                                    assert(gv[t] == tailv[t - 1]);
                                }
                            }
                            assert(vals_ok(gv));
                        } else {
                            let bad = choose|t: int|
                                0 <= t < tailv.len() && !(0 <= #[trigger] tailv[t] <= i64::MAX);
                            assert(gv[bad + 1] == tailv[bad]);
                            assert(!vals_ok(gv));
                        }
                    }
                    (ok_rest, rest)
                },
                None => {
                    rest.insert(0, 0);
                    proof {
                        assert(!vals_ok(gv)) by {
                            lemma_dec_val_nonneg(b.take(j - from));
                            assert(gv[0] > i64::MAX);
                        }
                    }
                    (false, rest)
                },
            }
        },
    }
}


/// Build the timecode once a signed frame count is known; a count whose
/// value or seconds do not fit in 64 bits is a conversion error.
fn build_from_count(f: i128, rate: Framerate) -> (r: Result<Timecode, TimecodeParseError>)
    requires
        rate.wf(),
        rate@.playback.n >= 1,
    ensures
        outcome_matches_tc(
            tc_parse_done(
                if fits(f as int) {
                    TcParse::Frames(f as int)
                } else {
                    TcParse::Conversion
                },
                rate@,
            ),
            rate@,
            r,
        ),
{
    if f > (i64::MAX as i128) || f < -(i64::MAX as i128) {
        return Err(
            TimecodeParseError::Conversion("frame count does not fit in 64 bits".to_owned()),
        );
    }
    match Timecode::from_frame_count(f as i64, rate) {
        Some(tc) => Ok(tc),
        None => Err(
            TimecodeParseError::Conversion(
                "the seconds of this frame count do not fit in 64 bits".to_owned(),
            ),
        ),
    }
}

/// Read a footage body `feet+frames[.perf]` starting at `start` and
/// build the timecode, applying the sign parsed by the caller.
#[verifier::rlimit(60)]
fn frames_from_ff(
    s: &str,
    start: usize,
    neg: bool,
    hint: Option<FilmFormat>,
    rate: Framerate,
) -> (r: Result<Timecode, TimecodeParseError>)
    requires
        rate.wf(),
        rate@.playback.n >= 1,
        start <= s@.len(),
    ensures
        outcome_matches_tc(
            tc_parse_done(
                if matches_ff(s@.skip(start as int)) {
                    ff_vals_outcome(neg, s@.skip(start as int), hint)
                } else {
                    TcParse::UnknownFormat
                },
                rate@,
            ),
            rate@,
            r,
        ),
{
    let ghost b = s@.skip(start as int);
    let len = s.unicode_len();
    proof {
        crate::text::lemma_first_idx(b, '+');
    }
    let plus = crate::text::find_from(s, start, '+');
    let pi = match plus {
        Some(p) => p,
        None => {
            return Err(
                TimecodeParseError::UnknownStrFormat(
                    "text matches no frame-count format".to_owned(),
                ),
            );
        },
    };
    proof {
        assert(b.take(pi - start) =~= s@.subrange(start as int, pi as int));
    }
    if pi == start || !crate::text::check_digit_run(s, start, pi) {
        return Err(
            TimecodeParseError::UnknownStrFormat("text matches no frame-count format".to_owned()),
        );
    }
    let ghost rest = b.skip(pi - start + 1);
    proof {
        crate::text::lemma_first_idx(rest, '.');
        assert(rest =~= s@.skip(pi + 1));
    }
    let dot = crate::text::find_from(s, pi + 1, '.');
    let (fr_end, has_perf): (usize, bool) = match dot {
        Some(di) => {
            // Exactly one perforation digit may follow the dot.
            if len - di != 2 {
                return Err(
                    TimecodeParseError::UnknownStrFormat(
                        "text matches no frame-count format".to_owned(),
                    ),
                );
            }
            let pc = s.get_char(di + 1);
            let pu = pc as u32;
            proof {
                assert(rest[di + 1 - (pi + 1)] == s@[di + 1]);
            }
            if pu < 48 || pu > 57 {
                return Err(
                    TimecodeParseError::UnknownStrFormat(
                        "text matches no frame-count format".to_owned(),
                    ),
                );
            }
            (di, true)
        },
        None => (len, false),
    };
    proof {
        if has_perf {
            assert(rest.take(fr_end - (pi + 1)) =~= s@.subrange(pi + 1, fr_end as int));
        } else {
            assert(rest =~= s@.subrange(pi + 1, fr_end as int));
        }
    }
    if pi + 1 == fr_end || !crate::text::check_digit_run(s, pi + 1, fr_end) {
        return Err(
            TimecodeParseError::UnknownStrFormat("text matches no frame-count format".to_owned()),
        );
    }
    proof {
        assert(matches_ff(b));
    }
    let feet = match crate::text::parse_digits_i64(s, start, pi) {
        Some(v) => v,
        None => {
            return Err(
                TimecodeParseError::Conversion("feet value does not fit in 64 bits".to_owned()),
            );
        },
    };
    let fr = match crate::text::parse_digits_i64(s, pi + 1, fr_end) {
        Some(v) => v,
        None => {
            return Err(
                TimecodeParseError::Conversion("frames value does not fit in 64 bits".to_owned()),
            );
        },
    };
    let fmt: FilmFormat = match hint {
        Some(f) => {
            if has_perf && !f.allows_perf_field() {
                return Err(
                    TimecodeParseError::UnknownStrFormat(
                        "a perforation field is not allowed for this film format".to_owned(),
                    ),
                );
            }
            f
        },
        None => {
            if has_perf {
                FilmFormat::FF35mm3perf
            } else {
                FilmFormat::FF35mm4perf
            }
        },
    };
    proof {
        crate::timecode::lemma_format_constants();
    }
    let modfeet = fmt.footage_modulus_footage_count();
    let modframes = fmt.footage_modulus_frame_count();
    let moduli: u64 = (feet as u64) / (modfeet as u64);
    let remf: u64 = (feet as u64) % (modfeet as u64);
    let perfoot: u64 = (modframes as u64) / (modfeet as u64);
    proof {
        vstd::arithmetic::div_mod::lemma_div_nonincreasing(feet as int, modfeet as int);
        vstd::arithmetic::div_mod::lemma_div_pos_is_pos(feet as int, modfeet as int);
        vstd::arithmetic::div_mod::lemma_mod_division_less_than_divisor(
            feet as int,
            modfeet as int,
        );
        crate::rational::lemma_mul_abs_bound(
            moduli as int,
            modframes as int,
            i64::MAX as int,
            64,
        );
    }
    proof {
        assert(0 <= (moduli as int) * (modframes as int) <= 64 * (i64::MAX as int))
            by (nonlinear_arith)
            requires
                0 <= moduli as int <= i64::MAX as int,
                0 <= modframes as int <= 64,
        {
        }
        assert(0 <= (remf as int) * (perfoot as int) <= 192) by (nonlinear_arith)
            requires
                0 <= remf as int <= 2,
                0 <= perfoot as int <= 64,
        {
        }
    }
    let total: i128 = (fr as i128) + (moduli as i128) * (modframes as i128) + (remf as i128) * (
    perfoot as i128);
    let f: i128 = if neg {
        -total
    } else {
        total
    };
    build_from_count(f, rate)
}

/// Read a frame-count text: a timecode body first, then a footage body.
#[verifier::rlimit(100)]
fn frames_from_text(s: &str, rate: Framerate) -> (r: Result<Timecode, TimecodeParseError>)
    requires
        rate.wf(),
        rate@.playback.n >= 1,
    ensures
        outcome_matches_tc(tc_parse_done(text_frames_outcome(s@, rate@), rate@), rate@, r),
{
    let len = s.unicode_len();
    let (neg, start): (bool, usize) = if len > 0 && s.get_char(0) == '-' {
        (true, 1)
    } else {
        (false, 0)
    };
    let ghost b = tc_strip(s@);
    proof {
        assert(b == s@.skip(start as int));
    }
    proof {
        assert(b =~= s@.subrange(start as int, len as int));
    }
    if !check_tc_chars(s, start, len) {
        return frames_from_ff(s, start, neg, None, rate);
    }
    let (ok, vals) = parse_groups(s, start, len);
    if vals.len() > 4 {
        proof {
            crate::text::lemma_first_idx(b, '+');
            let fi = first_idx(b, '+');
            if fi >= 0 {
                assert(is_dec_digit(b[fi]) || is_tc_sep(b[fi]));
                assert(('+' as u32) == 43);
            }
        }
        return frames_from_ff(s, start, neg, None, rate);
    }
    if !ok {
        return Err(
            TimecodeParseError::Conversion("a timecode place does not fit in 64 bits".to_owned()),
        );
    }
    let ghost vs = group_vals(b);
    let k = vals.len();
    let ff: i64 = vals[k - 1];
    let ss: i64 = if k >= 2 {
        vals[k - 2]
    } else {
        0
    };
    let mm: i64 = if k >= 3 {
        vals[k - 3]
    } else {
        0
    };
    let hh: i64 = if k >= 4 {
        vals[k - 4]
    } else {
        0
    };
    proof {
        assert(ff as int == vs.last());
        assert(ss as int == vals_seconds(vs));
        assert(mm as int == vals_minutes(vs));
        assert(hh as int == vals_hours(vs));
        crate::framerate::lemma_dfpm_bounds(rate@);
    }
    let mut adj: i128 = 0;
    if rate.ntsc() == Ntsc::DropFrame {
        let dpm: i64 = match rate.drop_frames_per_minute() {
            Some(d) => d,
            None => {
                proof {
                    assert(false);
                }
                0
            },
        };
        if ff < dpm && ss == 0 && (mm as u64) % 10 != 0 {
            return Err(
                TimecodeParseError::DropFrameValue(
                    "drop-frame timecode cannot carry a skipped frame number at this minute".to_owned(),
                ),
            );
        }
        let tm: u128 = (hh as u128) * 60 + (mm as u128);
        let tmm: u128 = tm - tm / 10;
        proof {
            vstd::arithmetic::div_mod::lemma_div_pos_is_pos(tm as int, 10);
            vstd::arithmetic::div_mod::lemma_div_nonincreasing(tm as int, 10);
        }
        let prod: u128 = match (dpm as u128).checked_mul(tmm) {
            Some(p) => p,
            None => {
                proof {
                    crate::rational::lemma_mul_abs_bound(
                        dpm as int,
                        tmm as int,
                        i64::MAX as int,
                        61 * (i64::MAX as int) + 61,
                    );
                }
                return Err(
                    TimecodeParseError::Conversion(
                        "the drop-frame adjustment does not fit in 64 bits".to_owned(),
                    ),
                );
            },
        };
        if prod > (i64::MAX as u128) {
            return Err(
                TimecodeParseError::Conversion(
                    "the drop-frame adjustment does not fit in 64 bits".to_owned(),
                ),
            );
        }
        adj = -(prod as i128);
    }
    let tbr = rate.timebase();
    let bn = tbr.numer();
    let bd = tbr.denom();
    let sec_tot: i128 = (ss as i128) + (mm as i128) * 60 + (hh as i128) * 3600;
    let m1: i128 = match sec_tot.checked_mul(bn as i128) {
        Some(m) => m,
        None => {
            proof {
                lemma_num_term_bounds(
                    sec_tot as int,
                    bn as int,
                    ff as int,
                    bd as int,
                );
            }
            return Err(
                TimecodeParseError::Conversion(
                    "the frame count of this timecode does not fit in 64 bits".to_owned(),
                ),
            );
        },
    };
    proof {
        crate::rational::lemma_mul_abs_bound(ff as int, bd as int, i64::MAX as int, i64::MAX as int);
    }
    let p2: i128 = (ff as i128) * (bd as i128);
    let num: i128 = match m1.checked_add(p2) {
        Some(n) => n,
        None => {
            proof {
                lemma_num_term_bounds(
                    sec_tot as int,
                    bn as int,
                    ff as int,
                    bd as int,
                );
            }
            return Err(
                TimecodeParseError::Conversion(
                    "the frame count of this timecode does not fit in 64 bits".to_owned(),
                ),
            );
        },
    };
    if num >= 0x4000_0000_0000_0000_0000_0000_0000_0000i128 {
        return Err(
            TimecodeParseError::Conversion(
                "the frame count of this timecode does not fit in 64 bits".to_owned(),
            ),
        );
    }
    proof {
        lemma_num_term_bounds(sec_tot as int, bn as int, ff as int, bd as int);
    }
    let base: i128 = round_pair(num, bd as i128);
    let f0: i128 = base + adj;
    let f: i128 = if neg {
        -f0
    } else {
        f0
    };
    build_from_count(f, rate)
}

/// Both terms of a timecode's frame numerator are non-negative, so the
/// numerator dominates each of them.
proof fn lemma_num_term_bounds(sec: int, bn: int, ff: int, bd: int)
    requires
        sec >= 0,
        bn >= 0,
        ff >= 0,
        bd >= 1,
    ensures
        sec * bn >= 0,
        ff * bd >= 0,
        sec * bn + ff * bd >= sec * bn,
        sec * bn + ff * bd >= ff * bd,
{
    assert(sec * bn >= 0 && ff * bd >= 0) by (nonlinear_arith)
        requires
            sec >= 0,
            bn >= 0,
            ff >= 0,
            bd >= 1,
    {
    }
}

impl Timecode {
    /// Build a timecode resting on the frame a source names: a plain
    /// count, a timecode or footage text, or a footage text with an
    /// explicit film format.
    pub fn with_frames(frames: FramesSource, rate: Framerate) -> (r: Result<
        Timecode,
        TimecodeParseError,
    >)
        requires
            rate.wf(),
            rate@.playback.n >= 1,
        ensures
            outcome_matches_tc(
                tc_parse_done(frames_src_outcome(frames, rate@), rate@),
                rate@,
                r,
            ),
    {
        match &frames {
            FramesSource::Integer(i) => build_from_count(*i as i128, rate),
            FramesSource::Text(s) => frames_from_text(s.as_str(), rate),
            FramesSource::FeetFrames(ffs) => {
                proof {
                    ffs.lemma_view();
                }
                let len = ffs.input.as_str().unicode_len();
                let (neg, start): (bool, usize) = if len > 0 && ffs.input.as_str().get_char(0)
                    == '-' {
                    (true, 1)
                } else {
                    (false, 0)
                };
                proof {
                    assert(tc_strip(ffs@.text) == ffs.input@.skip(start as int));
                }
                frames_from_ff(ffs.input.as_str(), start, neg, Some(ffs.format), rate)
            },
        }
    }
}



/// How a seconds source is disposed of.
pub ghost enum SecsParse {
    /// An exact seconds value to snap to the rate's frame boundary.
    Secs(Rat),
    /// A numeric component did not fit.
    Conversion,
    /// No known pattern matched.
    UnknownFormat,
}

/// The runtime grammar after the sign: up to two digit groups with
/// separators, then seconds digits with an optional decimal fraction.
pub open spec fn matches_runtime(s: Seq<char>) -> bool {
    let di = first_idx(s, '.');
    let ip = if di == -1 {
        s
    } else {
        s.take(di)
    };
    &&& tc_chars_shape(ip)
    &&& group_vals(ip).len() <= 3
    &&& (di >= 0 ==> di + 1 < s.len() && all_digits(s.skip(di + 1)))
}

/// The exact seconds a runtime body denotes: whole seconds from the
/// groups, plus the decimal fraction read digit for digit.
pub open spec fn runtime_secs(s: Seq<char>) -> Rat {
    let di = first_idx(s, '.');
    let ip = if di == -1 {
        s
    } else {
        s.take(di)
    };
    let vs = group_vals(ip);
    let sec_tot = vals_seconds_place(vs) + 60 * vals_minutes_place(vs) + 3600 * vals_hours_place(
        vs,
    );
    let f = if di == -1 {
        Seq::<char>::empty()
    } else {
        s.skip(di + 1)
    };
    Rat { n: sec_tot * crate::text::pow10(f.len()) + dec_val(f), d: crate::text::pow10(f.len()) }
}

/// The seconds place of a runtime group list: the last group.
pub open spec fn vals_seconds_place(vs: Seq<int>) -> int {
    vs.last()
}

/// The minutes place of a runtime group list.
pub open spec fn vals_minutes_place(vs: Seq<int>) -> int {
    if vs.len() >= 2 {
        vs[vs.len() - 2]
    } else {
        0
    }
}

/// The hours place of a runtime group list.
pub open spec fn vals_hours_place(vs: Seq<int>) -> int {
    if vs.len() >= 3 {
        vs[vs.len() - 3]
    } else {
        0
    }
}

/// Disposition of a runtime text: its exact signed seconds, or why it
/// is rejected.  Fractions beyond eighteen digits and values beyond the
/// 128-bit intermediate are conversion errors.
pub open spec fn runtime_outcome(s: Seq<char>) -> SecsParse {
    let b = tc_strip(s);
    let neg = tc_neg(s);
    if !matches_runtime(b) {
        SecsParse::UnknownFormat
    } else {
        let di = first_idx(b, '.');
        let ip = if di == -1 {
            b
        } else {
            b.take(di)
        };
        let flen: int = if di == -1 {
            0
        } else {
            b.len() - di - 1
        };
        if !vals_ok(group_vals(ip)) {
            SecsParse::Conversion
        } else if flen > 18 {
            SecsParse::Conversion
        } else {
            let v = runtime_secs(b);
            if v.n > i128::MAX {
                SecsParse::Conversion
            } else if !crate::rational::reduced_fits(v.n, v.d) {
                SecsParse::Conversion
            } else if neg {
                SecsParse::Secs(v.neg())
            } else {
                SecsParse::Secs(v)
            }
        }
    }
}

/// Disposition of any seconds source.
pub open spec fn secs_src_outcome(src: SecondsSource) -> SecsParse {
    match src {
        SecondsSource::Rational(n, d) => {
            if d == 0 {
                SecsParse::Conversion
            } else if !crate::rational::reduced_fits(n as int, d as int) {
                SecsParse::Conversion
            } else if d < 0 {
                SecsParse::Secs(Rat { n: -(n as int), d: -(d as int) })
            } else {
                SecsParse::Secs(Rat { n: n as int, d: d as int })
            }
        },
        SecondsSource::Text(s) => runtime_outcome(s@),
    }
}

/// An exact seconds value only builds a timecode when it reduces to 64
/// bits and its snapped frame fits.
pub open spec fn secs_parse_done(o: SecsParse, v: RateView) -> SecsParse {
    match o {
        SecsParse::Secs(x) => if secs_store_ok(x, v) {
            o
        } else {
            SecsParse::Conversion
        },
        _ => o,
    }
}

/// The seconds constructors' results agree with the spec disposition.
pub open spec fn outcome_matches_secs(
    o: SecsParse,
    v: RateView,
    r: Result<Timecode, TimecodeParseError>,
) -> bool {
    match o {
        SecsParse::Secs(x) => r matches Ok(tc) && tc.wf() && tc@.rate == v && tc@.seconds
            == crate::timecode::stored_seconds(x, v) && tc_frames(tc@) == x.mul(
            v.playback,
        ).round(),
        SecsParse::Conversion => r matches Err(e) && e is Conversion,
        SecsParse::UnknownFormat => r matches Err(e) && e is UnknownStrFormat,
    }
}

/// Snap an exact, well-formed seconds value to the rate and build the
/// timecode.
fn build_from_seconds(q: Rational, Ghost(target): Ghost<Rat>, rate: Framerate) -> (r: Result<
    Timecode,
    TimecodeParseError,
>)
    requires
        rate.wf(),
        rate@.playback.n >= 1,
        q.wf(),
        target.wf(),
        q@.veq(target),
    ensures
        outcome_matches_secs(
            if secs_store_ok(target, rate@) {
                SecsParse::Secs(target)
            } else {
                SecsParse::Conversion
            },
            rate@,
            r,
        ),
{
    proof {
        Timecode::lemma_snap_same(q@, target, rate@);
    }
    match Timecode::from_rational_seconds(q, rate) {
        Some(tc) => Ok(tc),
        None => Err(
            TimecodeParseError::Conversion(
                "the seconds of this value do not fit in 64 bits".to_owned(),
            ),
        ),
    }
}

/// Read a runtime text such as `01:30:00.5` and build the timecode.
#[verifier::rlimit(100)]
#[verifier::spinoff_prover]
fn seconds_from_text(s: &str, rate: Framerate) -> (r: Result<Timecode, TimecodeParseError>)
    requires
        rate.wf(),
        rate@.playback.n >= 1,
    ensures
        outcome_matches_secs(secs_parse_done(runtime_outcome(s@), rate@), rate@, r),
{
    let len = s.unicode_len();
    let (neg, start): (bool, usize) = if len > 0 && s.get_char(0) == '-' {
        (true, 1)
    } else {
        (false, 0)
    };
    let ghost b = tc_strip(s@);
    proof {
        assert(b == s@.skip(start as int));
        crate::text::lemma_first_idx(b, '.');
    }
    let dot = crate::text::find_from(s, start, '.');
    let ip_end: usize = match dot {
        Some(di) => di,
        None => len,
    };
    let ghost ip = if first_idx(b, '.') == -1 {
        b
    } else {
        b.take(first_idx(b, '.'))
    };
    proof {
        assert(ip =~= s@.subrange(start as int, ip_end as int));
    }
    if !check_tc_chars(s, start, ip_end) {
        proof {
            assert(s@.subrange(start as int, ip_end as int) == ip);
            assert(!matches_runtime(b));
        }
        return Err(
            TimecodeParseError::UnknownStrFormat("text is not a runtime format".to_owned()),
        );
    }
    if dot.is_some() {
        let di = ip_end;
        proof {
            assert(b.skip(first_idx(b, '.') + 1) =~= s@.subrange(di + 1, len as int));
        }
        if di + 1 == len || !crate::text::check_digit_run(s, di + 1, len) {
            return Err(
                TimecodeParseError::UnknownStrFormat("text is not a runtime format".to_owned()),
            );
        }
    }
    let (ok, vals) = parse_groups(s, start, ip_end);
    if vals.len() > 3 {
        return Err(
            TimecodeParseError::UnknownStrFormat("text is not a runtime format".to_owned()),
        );
    }
    proof {
        assert(matches_runtime(b));
    }
    if !ok {
        return Err(
            TimecodeParseError::Conversion("a runtime place does not fit in 64 bits".to_owned()),
        );
    }
    let k = vals.len();
    let ss: i64 = vals[k - 1];
    let mm: i64 = if k >= 2 {
        vals[k - 2]
    } else {
        0
    };
    let hh: i64 = if k >= 3 {
        vals[k - 3]
    } else {
        0
    };
    let flen: usize = if dot.is_some() {
        len - (ip_end + 1)
    } else {
        0
    };
    if flen > 18 {
        return Err(
            TimecodeParseError::Conversion(
                "a fraction beyond eighteen digits does not fit in 64 bits".to_owned(),
            ),
        );
    }
    let ghost f = if first_idx(b, '.') == -1 {
        Seq::<char>::empty()
    } else {
        b.skip(first_idx(b, '.') + 1)
    };
    let fv: i64 = if dot.is_some() {
        proof {
            crate::text::lemma_dec_val_bound(f);
            crate::text::lemma_pow10_le(f.len(), 18);
            assert(crate::text::pow10(18) == 1000000000000000000) by {
                reveal_with_fuel(crate::text::pow10, 19);
            }
        }
        match crate::text::parse_digits_i64(s, ip_end + 1, len) {
            Some(v) => v,
            None => {
                proof {
                    assert(false);
                }
                0
            },
        }
    } else {
        0
    };
    let p10: u64 = crate::text::pow10_u64(flen);
    let sec_tot: i128 = (ss as i128) + (mm as i128) * 60 + (hh as i128) * 3600;
    let ghost v = runtime_secs(b);
    proof {
        assert(v.n == sec_tot as int * (p10 as int) + fv as int && v.d == p10 as int);
    }
    let m1: i128 = match sec_tot.checked_mul(p10 as i128) {
        Some(m) => m,
        None => {
            proof {
                lemma_num_term_bounds(sec_tot as int, p10 as int, fv as int, 1);
                assert(v.n > i128::MAX);
            }
            return Err(
                TimecodeParseError::Conversion(
                    "the seconds of this runtime do not fit in 64 bits".to_owned(),
                ),
            );
        },
    };
    let num: i128 = match m1.checked_add(fv as i128) {
        Some(n) => n,
        None => {
            proof {
                lemma_num_term_bounds(sec_tot as int, p10 as int, fv as int, 1);
            }
            return Err(
                TimecodeParseError::Conversion(
                    "the seconds of this runtime do not fit in 64 bits".to_owned(),
                ),
            );
        },
    };
    let q0 = match Rational::from_reduced128(num, p10 as i128) {
        Some(q) => q,
        None => {
            return Err(
                TimecodeParseError::Conversion(
                    "the seconds of this runtime do not fit in 64 bits".to_owned(),
                ),
            );
        },
    };
    proof {
        crate::rational::lemma_reduced_of(num as int, p10 as int);
    }
    if neg {
        let qn = q0.negate();
        proof {
            assert(qn@.veq(v.neg())) by (nonlinear_arith)
                requires
                    q0@.n * v.d == v.n * q0@.d,
                    qn@ == q0@.neg(),
                    v.d >= 1,
                    q0@.d >= 1,
            {
            }
        }
        build_from_seconds(qn, Ghost(v.neg()), rate)
    } else {
        build_from_seconds(q0, Ghost(v), rate)
    }
}

impl Timecode {
    /// Build a timecode from a seconds source — an exact fraction or a
    /// runtime text — snapped to the nearest whole frame of `rate`.
    pub fn with_seconds(seconds: SecondsSource, rate: Framerate) -> (r: Result<
        Timecode,
        TimecodeParseError,
    >)
        requires
            rate.wf(),
            rate@.playback.n >= 1,
        ensures
            outcome_matches_secs(
                secs_parse_done(secs_src_outcome(seconds), rate@),
                rate@,
                r,
            ),
    {
        match &seconds {
            SecondsSource::Rational(n, d) => {
                if *d == 0 {
                    return Err(
                        TimecodeParseError::Conversion(
                            "seconds cannot have a zero denominator".to_owned(),
                        ),
                    );
                }
                let ghost target = if *d < 0 {
                    Rat { n: -(*n as int), d: -(*d as int) }
                } else {
                    Rat { n: *n as int, d: *d as int }
                };
                proof {
                    crate::rational::lemma_reduced_of(*n as int, *d as int);
                }
                match Rational::new(*n, *d) {
                    Some(q) => {
                        proof {
                            assert(q@.veq(target)) by (nonlinear_arith)
                                requires
                                    q@.n * (*d as int) == (*n as int) * q@.d,
                                    target == (if *d < 0 {
                                        Rat { n: -(*n as int), d: -(*d as int) }
                                    } else {
                                        Rat { n: *n as int, d: *d as int }
                                    }),
                            {
                            }
                        }
                        build_from_seconds(q, Ghost(target), rate)
                    },
                    None => Err(
                        TimecodeParseError::Conversion(
                            "the seconds do not fit in 64 bits".to_owned(),
                        ),
                    ),
                }
            },
            SecondsSource::Text(s) => seconds_from_text(s.as_str(), rate),
        }
    }

    /// Build a timecode from a count of editing-application ticks,
    /// 254 016 000 000 to the second, snapped to the nearest whole
    /// frame of `rate`.
    pub fn with_premiere_ticks(ticks: PremiereTicksSource, rate: Framerate) -> (r: Result<
        Timecode,
        TimecodeParseError,
    >)
        requires
            rate.wf(),
            rate@.playback.n >= 1,
        ensures
            outcome_matches_secs(
                secs_parse_done(
                    if crate::rational::reduced_fits(
                        ticks as int,
                        crate::timecode::ticks_per_second(),
                    ) {
                        SecsParse::Secs(
                            Rat { n: ticks as int, d: crate::timecode::ticks_per_second() },
                        )
                    } else {
                        SecsParse::Conversion
                    },
                    rate@,
                ),
                rate@,
                r,
            ),
    {
        proof {
            crate::rational::lemma_reduced_of(ticks as int, crate::timecode::ticks_per_second());
        }
        match Rational::from_reduced128(ticks as i128, 254016000000) {
            Some(q) => build_from_seconds(
                q,
                Ghost(Rat { n: ticks as int, d: crate::timecode::ticks_per_second() }),
                rate,
            ),
            None => Err(
                TimecodeParseError::Conversion("the seconds do not fit in 64 bits".to_owned()),
            ),
        }
    }
}


} // verus!
