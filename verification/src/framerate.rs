//! Validated framerates: an exact rational playback speed paired with
//! an NTSC classification, and the quantities derived from them.

use crate::rational::{
    fits, is_reduced, lemma_round_abs_bound, rat_wf64, Rat, Rational,
};
use vstd::prelude::*;
use vstd::string::StrSliceExecFns;
use vstd::string::StringExecFns;

verus! {

/// The NTSC standard a framerate adheres to.
#[derive(Clone, Copy, Debug, PartialEq, Eq, Structural)]
pub enum Ntsc {
    /// Not an NTSC rate.
    NotNtsc,
    /// Non-drop NTSC: no frame numbers are skipped, so timecode drifts
    /// from true wall-clock time.
    NonDropFrame,
    /// Drop-frame NTSC: frame numbers are skipped periodically to keep
    /// timecode in step with wall-clock time.
    DropFrame,
}

impl Ntsc {
    /// Whether this is any NTSC format (drop or non-drop).
    pub fn is_ntsc(self) -> (r: bool)
        ensures
            r == (self != Ntsc::NotNtsc),
    {
        match self {
            Ntsc::NotNtsc => false,
            _ => true,
        }
    }

    /// The label used when printing a framerate.
    pub fn display_str(self) -> (r: String)
        ensures
            r@ == ntsc_label(self),
    {
        let s: &'static str = match self {
            Ntsc::NotNtsc => "",
            Ntsc::NonDropFrame => "NTSC NDF",
            Ntsc::DropFrame => "NTSC DF",
        };
        proof {
            reveal_strlit("");
            reveal_strlit("NTSC NDF");
            reveal_strlit("NTSC DF");
            assert(s@ =~= ntsc_label(self));
        }
        s.to_owned()
    }
}

/// The label text of each NTSC classification.
pub open spec fn ntsc_label(n: Ntsc) -> Seq<char> {
    match n {
        Ntsc::NotNtsc => Seq::<char>::empty(),
        Ntsc::NonDropFrame => seq!['N', 'T', 'S', 'C', ' ', 'N', 'D', 'F'],
        Ntsc::DropFrame => seq!['N', 'T', 'S', 'C', ' ', 'D', 'F'],
    }
}

/// The mathematical content of a framerate: its exact playback speed in
/// frames per second, and its NTSC classification.
pub ghost struct RateView {
    pub playback: Rat,
    pub ntsc: Ntsc,
}

/// A well-formed rate: a reduced, non-negative 64-bit playback speed,
/// and for drop-frame rates a playback that is a whole multiple of
/// 30000/1001, which every constructor enforces.
pub open spec fn rate_wf(v: RateView) -> bool {
    rat_wf64(v.playback) && v.playback.n >= 0 && (v.ntsc == Ntsc::DropFrame ==> (1001 * v.playback.n)
        % (30000 * v.playback.d) == 0)
}

/// The timecode timebase of a rate: NTSC rates report sections against
/// the playback speed rounded to a whole number.
pub open spec fn timebase_of(v: RateView) -> Rat {
    if v.ntsc != Ntsc::NotNtsc {
        Rat::from_int(v.playback.round())
    } else {
        v.playback
    }
}

/// Frames to skip each non-tenth minute of drop-frame timecode: the
/// timebase times 0.066666, rounded to the nearest whole number.
pub open spec fn dfpm_of(v: RateView) -> int {
    (Rat { n: v.playback.round() * 66666, d: 1000000 }).round()
}


/// The per-minute drop count is non-negative and far below 64 bits.
pub proof fn lemma_dfpm_bounds(v: RateView)
    requires
        rat_wf64(v.playback),
        v.playback.n >= 0,
    ensures
        0 <= dfpm_of(v) <= i64::MAX as int * 66666 / 1000000 + 1,
        dfpm_of(v) <= i64::MAX,
{
    let p = v.playback;
    crate::rational::lemma_round_abs_bound(p);
    let sc = Rat { n: p.round() * 66666, d: 1000000 };
    crate::rational::lemma_mul_abs_bound(p.round(), 66666, i64::MAX as int, 66666);
    assert(p.round() * 66666 >= 0) by (nonlinear_arith)
        requires
            p.round() >= 0,
    {
    }
    vstd::arithmetic::div_mod::lemma_fundamental_div_mod(sc.n, sc.d);
    vstd::arithmetic::div_mod::lemma_mod_division_less_than_divisor(sc.n, sc.d);
    vstd::arithmetic::div_mod::lemma_div_pos_is_pos(sc.n, sc.d);
    vstd::arithmetic::div_mod::lemma_div_is_ordered(sc.n, i64::MAX as int * 66666, 1000000);
    assert(dfpm_of(v) <= sc.n / 1000000 + 1);
}

/// The rate at which a video file's frames are played back, in
/// frames per second.
#[derive(Clone, Copy, Debug, PartialEq, Eq, Structural)]
pub struct Framerate {
    pub(crate) value: Rational,
    pub(crate) ntsc: Ntsc,
}

impl View for Framerate {
    type V = RateView;

    closed spec fn view(&self) -> RateView {
        RateView { playback: self.value@, ntsc: self.ntsc }
    }
}

impl Framerate {
    /// A 64-bit reduced, non-negative playback value that meets the
    /// drop-frame rule when the rate is drop-frame.
    pub open spec fn wf(self) -> bool {
        rate_wf(self@)
    }

    /// How the view decomposes into the stored parts.
    pub(crate) proof fn lemma_view(self)
        ensures
            self@ == (RateView { playback: self.value@, ntsc: self.ntsc }),
    {
    }

    /// Assemble a rate from an already-validated playback value.
    pub(crate) fn from_parts(value: Rational, ntsc: Ntsc) -> (r: Framerate)
        ensures
            r@.playback == value@,
            r@.ntsc == ntsc,
    {
        Framerate { value, ntsc }
    }

    /// The exact real-world playback speed as a fraction in frames per
    /// second.
    pub fn playback(&self) -> (r: Rational)
        requires
            self.wf(),
        ensures
            r.wf(),
            r@ == self@.playback,
    {
        self.value
    }

    /// The NTSC classification of the rate.
    pub fn ntsc(&self) -> (r: Ntsc)
        ensures
            r == self@.ntsc,
    {
        self.ntsc
    }

    /// The timecode timebase speed as a fraction in frames per second:
    /// the playback rounded to a whole number for NTSC rates, the
    /// playback itself otherwise.
    pub fn timebase(&self) -> (r: Rational)
        requires
            self.wf(),
        ensures
            r.wf(),
            r@ == timebase_of(self@),
            r@.n >= 0,
    {
        if self.ntsc.is_ntsc() {
            proof {
                lemma_round_abs_bound(self@.playback);
            }
            Rational::from_int(self.value.round_i64())
        } else {
            self.value
        }
    }

    /// The number of frame numbers to skip at the head of each minute
    /// not divisible by ten; defined only for drop-frame rates.
    pub fn drop_frames_per_minute(&self) -> (r: Option<i64>)
        requires
            self.wf(),
        ensures
            self@.ntsc == Ntsc::DropFrame ==> r == Some(dfpm_of(self@) as i64) && dfpm_of(self@)
                >= 0,
            self@.ntsc != Ntsc::DropFrame ==> r == None::<i64>,
    {
        if self.ntsc != Ntsc::DropFrame {
            return None;
        }
        proof {
            lemma_round_abs_bound(self@.playback);
        }
        let tb = self.value.round_i64();
        let p: u128 = (tb as u128) * 66666;
        let q: u128 = p / 1000000;
        let rm: u128 = p % 1000000;
        proof {
            let s = Rat { n: (tb as int) * 66666, d: 1000000 };
            vstd::arithmetic::div_mod::lemma_div_nonincreasing(s.n, s.d);
            vstd::arithmetic::div_mod::lemma_div_pos_is_pos(s.n, s.d);
            assert(q as int == s.n / s.d);
            assert(rm as int == s.n % s.d);
        }
        let dropped: u128 = if 2 * rm >= 1000000 {
            q + 1
        } else {
            q
        };
        Some(dropped as i64)
    }

    /// The bracketed display form of the rate, such as `[23.98 NTSC NDF]`
    /// or `[24]`: the playback written to two decimal places with
    /// trailing zeros (and a bare point) trimmed, then the NTSC label.
    pub fn display_str(&self) -> (r: String)
        requires
            self.wf(),
        ensures
            r@ == rate_display(self@),
    {
        let hundredths: u128 = self.playback_hundredths();
        let int_part: u64 = (hundredths / 100) as u64;
        let frac: u64 = (hundredths % 100) as u64;
        let mut out: String = "[".to_owned();
        out.append(crate::text::u64_to_dec(int_part).as_str());
        if frac != 0 {
            if frac % 10 == 0 {
                out.append(".".to_owned().as_str());
                out.append(crate::text::u64_to_dec(frac / 10).as_str());
            } else {
                out.append(".".to_owned().as_str());
                out.append(crate::text::u64_to_dec_pad2(frac).as_str());
            }
        }
        if self.ntsc.is_ntsc() {
            out.append(" ".to_owned().as_str());
        }
        out.append(self.ntsc.display_str().as_str());
        out.append("]".to_owned().as_str());
        proof {
            reveal_strlit("[");
            reveal_strlit("]");
            reveal_strlit(".");
            reveal_strlit(" ");
            assert(out@ =~= rate_display(self@));
        }
        out
    }

    /// The playback speed in hundredths of a frame per second, rounded
    /// to the nearest whole number of hundredths.
    fn playback_hundredths(&self) -> (r: u128)
        requires
            self.wf(),
        ensures
            r as int == hundredths_of(self@.playback),
    {
        let n = self.value.numer();
        let d = self.value.denom();
        let p: u128 = (n as u128) * 100;
        let q: u128 = p / (d as u128);
        let rm: u128 = p % (d as u128);
        proof {
            let s = Rat { n: self@.playback.n * 100, d: self@.playback.d };
            vstd::arithmetic::div_mod::lemma_div_pos_is_pos(s.n, s.d);
            assert(q as int == s.n / s.d);
            assert(rm as int == s.n % s.d);
        }
        if 2 * rm >= (d as u128) {
            q + 1
        } else {
            q
        }
    }
}

/// The playback value in rounded hundredths.
pub open spec fn hundredths_of(p: Rat) -> int {
    (Rat { n: p.n * 100, d: p.d }).round()
}

/// The decimal text of the playback for display: two places, trailing
/// zeros trimmed.
pub open spec fn rate_decimal_text(p: Rat) -> Seq<char> {
    let h = hundredths_of(p);
    let whole = crate::text::dec_digits((h / 100) as nat);
    let frac = h % 100;
    if frac == 0 {
        whole
    } else if frac % 10 == 0 {
        whole + seq!['.'] + crate::text::dec_digits((frac / 10) as nat)
    } else {
        whole + seq!['.'] + crate::text::pad2(frac as nat)
    }
}

/// The full bracketed display text of a framerate.
pub open spec fn rate_display(v: RateView) -> Seq<char> {
    let sep: Seq<char> = if v.ntsc != Ntsc::NotNtsc {
        seq![' ']
    } else {
        Seq::<char>::empty()
    };
    seq!['['] + rate_decimal_text(v.playback) + sep + ntsc_label(v.ntsc) + seq![']']
}

} // verus!
