//! The crate-level laws: facts that tie several operations together,
//! stated over the same spec functions the operations' contracts use
//! and proved once and for all.

use crate::framerate::RateView;
use crate::rational::{
    iabs, lemma_reduced_of, lemma_veq_determines, lemma_veq_mul_congruence, lemma_veq_trans,
    reduced_of, Rat,
};
use crate::timecode::{
    ff_disp_feet, ff_disp_frames, s_modulus_feet, s_modulus_frames, s_perfs_per_foot,
    s_perfs_per_frame, stored_seconds, tc_div_frames, tc_frames, tc_rem_frames, TcView,
};
use vstd::arithmetic::div_mod::{
    lemma_div_multiples_vanish, lemma_fundamental_div_mod, lemma_fundamental_div_mod_converse_div,
    lemma_fundamental_div_mod_converse_mod, lemma_mod_division_less_than_divisor,
};
use vstd::prelude::*;

verus! {

/// A timecode built on frame `f` rests exactly on frame `f`: the stored
/// seconds, `f` divided by the playback speed, multiply back to a whole
/// `f`.  This is the round trip from a frame count through seconds and
/// back.
pub proof fn law_frame_count_round_trip(f: int, p: Rat)
    requires
        p.wf(),
        p.n >= 1,
    ensures
        reduced_of(f * p.d, p.n).mul(p).round() == f,
        reduced_of(f * p.d, p.n).mul(p).is_int(),
{
    let s = reduced_of(f * p.d, p.n);
    lemma_reduced_of(f * p.d, p.n);
    let target = Rat { n: f * p.d, d: p.n };
    assert(s.veq(target));
    lemma_veq_mul_congruence(s, target, p);
    let prod = target.mul(p);
    assert(prod.veq(Rat { n: f, d: 1 })) by (nonlinear_arith)
        requires
            prod == (Rat { n: (f * p.d) * p.n, d: p.n * p.d }),
            p.n >= 1,
            p.d >= 1,
    {
    }
    assert(prod.wf() && s.mul(p).wf()) by (nonlinear_arith)
        requires
            prod.d == p.n * p.d,
            s.d >= 1,
            p.n >= 1,
            p.d >= 1,
            s.mul(p).d == s.d * p.d,
    {
    }
    lemma_veq_trans(s.mul(p), prod, Rat { n: f, d: 1 });
    lemma_veq_determines(s.mul(p), Rat { n: f, d: 1 });
    lemma_div_multiples_vanish(f, 1);
    lemma_mod_division_less_than_divisor(f, 1);
    assert((Rat { n: f, d: 1 }).round() == f);
    assert((Rat { n: f, d: 1 }).is_int());
}

/// A timecode built on a seconds value rests on the frame nearest to
/// `seconds * playback`: snapping the seconds to the frame boundary
/// leaves that rounded frame count unchanged.
pub proof fn law_seconds_snap_to_frame(s: Rat, v: RateView)
    requires
        s.wf(),
        v.playback.wf(),
        v.playback.n >= 1,
    ensures
        stored_seconds(s, v).mul(v.playback).round() == s.mul(v.playback).round(),
        stored_seconds(s, v).mul(v.playback).is_int(),
{
    law_frame_count_round_trip(s.mul(v.playback).round(), v.playback);
}

/// Negation is an involution, and the magnitude of the frame count is
/// the frame count of the magnitude: negating a timecode twice restores
/// its seconds, and the absolute value's frames are the absolute frames.
pub proof fn law_negate_involution(v: TcView)
    requires
        v.seconds.wf(),
        v.rate.playback.wf(),
        v.rate.playback.n >= 1,
    ensures
        v.seconds.neg().neg() == v.seconds,
        tc_frames(TcView { seconds: v.seconds.neg(), rate: v.rate }) == -tc_frames(v),
        tc_frames(TcView { seconds: v.seconds.abs_val(), rate: v.rate }) == iabs(tc_frames(v)),
{
    let p = v.rate.playback;
    assert(v.seconds.mul(p).wf()) by (nonlinear_arith)
        requires
            v.seconds.d >= 1,
            p.d >= 1,
    {
    }
    crate::rational::lemma_rat_neg_round(v.seconds.mul(p));
    assert((-v.seconds.n) * p.n == -(v.seconds.n * p.n)) by (nonlinear_arith);
    assert(v.seconds.neg().mul(p) == v.seconds.mul(p).neg());
    assert(iabs(v.seconds.n) * p.n == iabs(v.seconds.n * p.n)) by (nonlinear_arith)
        requires
            p.n >= 1,
    {
    }
    assert(v.seconds.abs_val().mul(p) == v.seconds.mul(p).abs_val());
}

/// Floor division and its remainder split a timecode exactly: the
/// quotient scaled back by the divisor, plus the remainder, is the
/// original frame count.
pub proof fn law_division_remainder(v: TcView, q: Rat)
    requires
        q.wf(),
        !q.is_zero(),
    ensures
        (Rat { n: tc_div_frames(v, q) * q.n, d: q.d }).round() + tc_rem_frames(v, q) == tc_frames(
            v,
        ),
{
}

/// Scaling the floored quotient timecode by the divisor lands exactly
/// on the scaled-quotient frame count that pairs with the remainder.
pub proof fn law_quotient_scales_back(v: TcView, q: Rat)
    requires
        q.wf(),
        !q.is_zero(),
        v.rate.playback.wf(),
        v.rate.playback.n >= 1,
    ensures
        reduced_of(tc_div_frames(v, q) * v.rate.playback.d, v.rate.playback.n).mul(q).mul(
            v.rate.playback,
        ).round() == (Rat { n: tc_div_frames(v, q) * q.n, d: q.d }).round(),
{
    let p = v.rate.playback;
    let f1 = tc_div_frames(v, q);
    let s = reduced_of(f1 * p.d, p.n);
    lemma_reduced_of(f1 * p.d, p.n);
    let target = Rat { n: f1 * p.d, d: p.n };
    assert(s.veq(target));
    lemma_veq_mul_congruence(s, target, q);
    assert(s.mul(q).wf() && target.mul(q).wf()) by (nonlinear_arith)
        requires
            s.d >= 1,
            p.n >= 1,
            q.d >= 1,
            s.mul(q).d == s.d * q.d,
            target.mul(q).d == p.n * q.d,
    {
    }
    lemma_veq_mul_congruence(s.mul(q), target.mul(q), p);
    let big = target.mul(q).mul(p);
    let small = Rat { n: f1 * q.n, d: q.d };
    assert(big.veq(small)) by (nonlinear_arith)
        requires
            big == (Rat { n: ((f1 * p.d) * q.n) * p.n, d: (p.n * q.d) * p.d }),
            small == (Rat { n: f1 * q.n, d: q.d }),
            p.n >= 1,
            p.d >= 1,
            q.d >= 1,
    {
    }
    assert(s.mul(q).mul(p).wf() && big.wf() && small.wf()) by (nonlinear_arith)
        requires
            s.d >= 1,
            q.d >= 1,
            p.d >= 1,
            p.n >= 1,
            s.mul(q).mul(p).d == (s.d * q.d) * p.d,
            big.d == (p.n * q.d) * p.d,
            small.d == q.d,
    {
    }
    lemma_veq_trans(s.mul(q).mul(p), big, small);
    lemma_veq_determines(s.mul(q).mul(p), small);
}

/// Writing a non-negative frame count as feet, in-foot frames and a
/// perforation marker, then reading those places back through the
/// footage arithmetic, returns exactly the original frame count, for
/// every film format.
#[verifier::rlimit(50)]
pub proof fn law_footage_round_trip(f: int, fmt: crate::timecode::FilmFormat)
    requires
        f >= 0,
    ensures
        ff_disp_frames(f, fmt) + (ff_disp_feet(f, fmt) / s_modulus_feet(fmt)) * s_modulus_frames(
            fmt,
        ) + (ff_disp_feet(f, fmt) % s_modulus_feet(fmt)) * (s_modulus_frames(fmt) / s_modulus_feet(
            fmt,
        )) == f,
{
    crate::timecode::lemma_format_constants();
    let a = s_perfs_per_frame(fmt);
    let pp = s_perfs_per_foot(fmt);
    let last = f * a + a - 1;
    if fmt == crate::timecode::FilmFormat::FF35mm3perf {
        lemma_fundamental_div_mod(f, 64);
        lemma_mod_division_less_than_divisor(f, 64);
        let u = f / 64;
        let w = f % 64;
        let s = (3 * w + 2) / 64;
        let t = (3 * w + 2) % 64;
        lemma_fundamental_div_mod(3 * w + 2, 64);
        lemma_mod_division_less_than_divisor(3 * w + 2, 64);
        assert(last == 64 * (3 * u + s) + t) by (nonlinear_arith)
            requires
                last == f * 3 + 2,
                f == 64 * u + w,
                3 * w + 2 == 64 * s + t,
        {
        }
        assert(u >= 0) by (nonlinear_arith)
            requires
                f == 64 * u + w,
                f >= 0,
                0 <= w < 64,
        {
        }
        lemma_fundamental_div_mod_converse_div(last, 64, 3 * u + s, t);
        lemma_fundamental_div_mod_converse_mod(last, 64, 3 * u + s, t);
        assert(ff_disp_feet(f, fmt) == 3 * u + s && ff_disp_frames(f, fmt) == t / 3);
        assert(0 <= s <= 2) by (nonlinear_arith)
            requires
                3 * w + 2 == 64 * s + t,
                0 <= w < 64,
                0 <= t < 64,
        {
        }
        lemma_fundamental_div_mod_converse_div(3 * u + s, 3, u, s);
        lemma_fundamental_div_mod_converse_mod(3 * u + s, 3, u, s);
        assert(64int / 3 == 21 && s_modulus_feet(fmt) == 3 && s_modulus_frames(fmt) == 64);
        if s == 0 {
            assert(t == 3 * w + 2);
            lemma_fundamental_div_mod_converse_div(t, 3, w, 2);
            assert(t / 3 + u * 64 + s * 21 == f) by (nonlinear_arith)
                requires
                    t / 3 == w,
                    s == 0,
                    f == 64 * u + w,
            {
            }
        } else if s == 1 {
            assert(t == 3 * (w - 21) + 1) by (nonlinear_arith)
                requires
                    3 * w + 2 == 64 * s + t,
                    s == 1,
            {
            }
            assert(w - 21 >= 0) by (nonlinear_arith)
                requires
                    3 * w + 2 == 64 + t,
                    t >= 0,
            {
            }
            lemma_fundamental_div_mod_converse_div(t, 3, w - 21, 1);
            assert(t / 3 + u * 64 + s * 21 == f) by (nonlinear_arith)
                requires
                    t / 3 == w - 21,
                    s == 1,
                    f == 64 * u + w,
            {
            }
        } else {
            assert(t == 3 * (w - 42)) by (nonlinear_arith)
                requires
                    3 * w + 2 == 64 * s + t,
                    s == 2,
            {
            }
            assert(w - 42 >= 0) by (nonlinear_arith)
                requires
                    3 * w + 2 == 128 + t,
                    t >= 0,
            {
            }
            lemma_fundamental_div_mod_converse_div(t, 3, w - 42, 0);
            assert(t / 3 + u * 64 + s * 21 == f) by (nonlinear_arith)
                requires
                    t / 3 == w - 42,
                    s == 2,
                    f == 64 * u + w,
            {
            }
        }
        assert(ff_disp_frames(f, fmt) + (ff_disp_feet(f, fmt) / 3) * 64 + (ff_disp_feet(f, fmt)
            % 3) * 21 == f);
    } else {
        // The other formats hold a whole number of frames per foot.
        let per = pp / a;
        assert((fmt == crate::timecode::FilmFormat::FF35mm4perf && a == 4 && pp == 64 && per == 16)
            || (fmt == crate::timecode::FilmFormat::FF35mm2perf && a == 2 && pp == 64 && per == 32)
            || (fmt == crate::timecode::FilmFormat::FF16mm && a == 1 && pp == 20 && per == 20));
        assert(pp == a * per) by (nonlinear_arith)
            requires
                (a == 4 && pp == 64 && per == 16) || (a == 2 && pp == 64 && per == 32) || (a == 1
                    && pp == 20 && per == 20),
        {
        }
        lemma_fundamental_div_mod(f, per);
        lemma_mod_division_less_than_divisor(f, per);
        let qq = f / per;
        let r = f % per;
        assert(last == pp * qq + (a * r + a - 1) && 0 <= a * r + a - 1 < pp && qq >= 0)
            by (nonlinear_arith)
            requires
                last == f * a + a - 1,
                f == per * qq + r,
                0 <= r < per,
                pp == a * per,
                a >= 1,
                f >= 0,
        {
        }
        lemma_fundamental_div_mod_converse_div(last, pp, qq, a * r + a - 1);
        lemma_fundamental_div_mod_converse_mod(last, pp, qq, a * r + a - 1);
        assert(ff_disp_feet(f, fmt) == qq);
        assert((a * r + a - 1) / a == r) by {
            assert(a * r + a - 1 == a * r + (a - 1));
            lemma_fundamental_div_mod_converse_div(a * r + a - 1, a, r, a - 1);
        }
        assert(ff_disp_frames(f, fmt) == r);
        lemma_fundamental_div_mod_converse_div(qq, 1, qq, 0);
        lemma_fundamental_div_mod_converse_mod(qq, 1, qq, 0);
        assert(ff_disp_frames(f, fmt) + (qq / 1) * per + (qq % 1) * (per / 1) == r + qq * per)
            by (nonlinear_arith)
            requires
                ff_disp_frames(f, fmt) == r,
                qq / 1 == qq,
                qq % 1 == 0,
                per / 1 == per,
        {
        }
        assert(r + qq * per == f) by (nonlinear_arith)
            requires
                f == per * qq + r,
        {
        }
    }
}


/// Writing a timecode as footage text and parsing that text back in the
/// same format restores the exact frame count: the full string-level
/// round trip behind the footage codec.
#[verifier::rlimit(100)]
#[verifier::spinoff_prover]
pub proof fn law_footage_text_round_trip(v: TcView, fmt: crate::timecode::FilmFormat)
    requires
        v.seconds.wf(),
        v.rate.playback.wf(),
        v.rate.playback.n >= 1,
        crate::rational::fits(tc_frames(v)),
    ensures
        crate::timecode_parse::matches_ff(
            crate::timecode_parse::tc_strip(crate::timecode::ff_display(v, fmt)),
        ),
        crate::timecode_parse::ff_vals_outcome(
            crate::timecode_parse::tc_neg(crate::timecode::ff_display(v, fmt)),
            crate::timecode_parse::tc_strip(crate::timecode::ff_display(v, fmt)),
            Some(fmt),
        ) == crate::timecode_parse::TcParse::Frames(tc_frames(v)),
{
    crate::timecode::lemma_format_constants();
    let p = v.rate.playback;
    let fabs = iabs(tc_frames(v));
    let a = s_perfs_per_frame(fmt);
    let pp = s_perfs_per_foot(fmt);
    let last = fabs * a + a - 1;
    let feet = ff_disp_feet(fabs, fmt);
    let fif = ff_disp_frames(fabs, fmt);
    let perf = crate::timecode::ff_disp_perf(fabs, fmt);
    assert(last >= 0 && fabs * a <= 4 * fabs) by (nonlinear_arith)
        requires
            fabs >= 0,
            1 <= a <= 4,
            last == fabs * a + a - 1,
    {
    }
    lemma_fundamental_div_mod(last, pp);
    lemma_mod_division_less_than_divisor(last, pp);
    vstd::arithmetic::div_mod::lemma_div_pos_is_pos(last, pp);
    vstd::arithmetic::div_mod::lemma_div_pos_is_pos(last % pp, a);
    vstd::arithmetic::div_mod::lemma_div_is_ordered(last % pp, pp - 1, a);
    assert(fabs * a + a - 1 <= fabs * pp + (pp - 1)) by (nonlinear_arith)
        requires
            fabs >= 0,
            1 <= a <= 4,
            a <= pp,
    {
    }
    vstd::arithmetic::div_mod::lemma_div_is_ordered(last, fabs * pp + (pp - 1), pp);
    vstd::arithmetic::div_mod::lemma_div_multiples_vanish_fancy(fabs, pp - 1, pp);
    assert(fabs * pp == pp * fabs) by (nonlinear_arith);
    assert(0 <= feet <= fabs);
    assert(0 <= fif <= (pp - 1) / a && (pp - 1) / a <= 63);
    lemma_mod_division_less_than_divisor(feet, s_modulus_feet(fmt));
    assert(0 <= perf <= 2);
    crate::text::lemma_dec_digits_val(feet as nat);
    crate::text::lemma_pad2_val(fif as nat);
    crate::text::lemma_dec_digits_val(perf as nat);
    let fd = crate::text::dec_digits(feet as nat);
    let p2 = crate::text::pad2(fif as nat);
    let dp = crate::text::dec_digits(perf as nat);
    assert(dp.len() == 1);
    assert(p2.len() == 2) by {
        if fif < 10 {
            assert(crate::text::dec_digits(fif as nat).len() == 1);
        } else {
            assert(crate::text::dec_digits(fif as nat) == crate::text::dec_digits(
                fif as nat / 10,
            ).push(crate::text::digit_char(fif as int % 10)));
            assert(crate::text::dec_digits(fif as nat / 10).len() == 1) by {
                crate::text::lemma_dec_digits_val(fif as nat / 10);
                assert(fif as nat / 10 < 10);
            }
        }
    }
    let s0 = crate::timecode::ff_display(v, fmt);
    let body = fd + seq!['+'] + p2 + (if crate::timecode::s_allows_perf(fmt) {
        seq!['.'] + dp
    } else {
        Seq::<char>::empty()
    });
    let b = crate::timecode_parse::tc_strip(s0);
    assert(b =~= body) by {
        if v.seconds.is_neg() {
            assert(s0[0] == '-');
            assert(s0.skip(1) =~= body);
        } else {
            assert(s0 =~= body);
            assert(crate::text::is_dec_digit(body[0]) ==> body[0] != '-') by {
                assert(('-' as u32) == 45);
            }
            assert(body[0] == fd[0]);
        }
    }
    // The plus sign sits right after the feet digits.
    let pi = fd.len() as int;
    assert(body[pi] == '+');
    assert(('+' as u32) == 43);
    assert forall|j: int| 0 <= j < pi implies body[j] != '+' by {
        assert(body[j] == fd[j]);
        assert(crate::text::is_dec_digit(fd[j]));
    }
    crate::text::lemma_first_idx_at(body, '+', pi);
    assert(body.take(pi) =~= fd);
    assert(crate::timecode_parse::ff_feet(body) == feet);
    let rest = body.skip(pi + 1);
    assert(('.' as u32) == 46);
    if crate::timecode::s_allows_perf(fmt) {
        assert(rest =~= p2 + seq!['.'] + dp);
        assert(rest[2] == '.');
        assert forall|j: int| 0 <= j < 2 implies rest[j] != '.' by {
            assert(rest[j] == p2[j]);
            assert(crate::text::is_dec_digit(p2[j]));
        }
        crate::text::lemma_first_idx_at(rest, '.', 2);
        assert(rest.take(2) =~= p2);
        assert(rest.len() == 4 && rest[3] == dp[0] && crate::text::is_dec_digit(dp[0]));
        assert(crate::timecode_parse::matches_ff(body));
        assert(crate::timecode_parse::ff_has_perf(body));
        assert(crate::timecode_parse::ff_frames(body) == fif);
    } else {
        assert(rest =~= p2);
        assert forall|j: int| 0 <= j < rest.len() implies rest[j] != '.' by {
            assert(crate::text::is_dec_digit(p2[j]));
        }
        crate::text::lemma_first_idx_absent(rest, '.');
        assert(crate::timecode_parse::matches_ff(body));
        assert(!crate::timecode_parse::ff_has_perf(body));
        assert(crate::timecode_parse::ff_frames(body) == fif);
    }
    // The places recombine to the frame magnitude.
    law_footage_round_trip(fabs, fmt);
    // The sign of the frame count follows the sign of the seconds.
    assert(v.seconds.mul(p).wf()) by (nonlinear_arith)
        requires
            v.seconds.d >= 1,
            p.d >= 1,
    {
    }
    crate::rational::lemma_round_abs_bound(v.seconds.mul(p));
    assert(v.seconds.is_neg() ==> v.seconds.mul(p).n < 0) by (nonlinear_arith)
        requires
            p.n >= 1,
    {
    }
    assert(!v.seconds.is_neg() ==> v.seconds.mul(p).n >= 0) by (nonlinear_arith)
        requires
            p.n >= 1,
    {
    }
    assert(crate::timecode_parse::tc_neg(s0) == v.seconds.is_neg()) by {
        if v.seconds.is_neg() {
            assert(s0[0] == '-');
        } else {
            if s0.len() > 0 {
                assert(s0[0] == fd[0]);
                assert(crate::text::is_dec_digit(s0[0]));
                assert(('-' as u32) == 45);
            }
        }
    }
}

} // verus!
