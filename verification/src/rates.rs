//! The common framerates seen in the wild, as ready-made values.

use crate::framerate::{Framerate, Ntsc};
use crate::rational::{gcd_nat, is_reduced, Rat, Rational};
use vstd::prelude::*;

verus! {

/// The rate constants are all in lowest terms: each Euclid chain is
/// walked one remainder at a time.
proof fn lemma_rate_pairs_reduced()
    ensures
        is_reduced(Rat { n: 24000, d: 1001 }),
        is_reduced(Rat { n: 30000, d: 1001 }),
        is_reduced(Rat { n: 48000, d: 1001 }),
        is_reduced(Rat { n: 60000, d: 1001 }),
        is_reduced(Rat { n: 24, d: 1 }),
        is_reduced(Rat { n: 30, d: 1 }),
        is_reduced(Rat { n: 48, d: 1 }),
        is_reduced(Rat { n: 60, d: 1 }),
{
    reveal_with_fuel(gcd_nat, 2);
    assert(gcd_nat(24000, 1001) == gcd_nat(1001, 977));
    assert(gcd_nat(1001, 977) == gcd_nat(977, 24));
    assert(gcd_nat(977, 24) == gcd_nat(24, 17));
    assert(gcd_nat(24, 17) == gcd_nat(17, 7));
    assert(gcd_nat(17, 7) == gcd_nat(7, 3));
    assert(gcd_nat(7, 3) == gcd_nat(3, 1));
    assert(gcd_nat(3, 1) == gcd_nat(1, 0));
    assert(gcd_nat(1, 0) == 1);
    assert(gcd_nat(30000, 1001) == gcd_nat(1001, 971));
    assert(gcd_nat(1001, 971) == gcd_nat(971, 30));
    assert(gcd_nat(971, 30) == gcd_nat(30, 11));
    assert(gcd_nat(30, 11) == gcd_nat(11, 8));
    assert(gcd_nat(11, 8) == gcd_nat(8, 3));
    assert(gcd_nat(8, 3) == gcd_nat(3, 2));
    assert(gcd_nat(3, 2) == gcd_nat(2, 1));
    assert(gcd_nat(2, 1) == gcd_nat(1, 0));
    assert(gcd_nat(1, 0) == 1);
    assert(gcd_nat(48000, 1001) == gcd_nat(1001, 953));
    assert(gcd_nat(1001, 953) == gcd_nat(953, 48));
    assert(gcd_nat(953, 48) == gcd_nat(48, 41));
    assert(gcd_nat(48, 41) == gcd_nat(41, 7));
    assert(gcd_nat(41, 7) == gcd_nat(7, 6));
    assert(gcd_nat(7, 6) == gcd_nat(6, 1));
    assert(gcd_nat(6, 1) == gcd_nat(1, 0));
    assert(gcd_nat(1, 0) == 1);
    assert(gcd_nat(60000, 1001) == gcd_nat(1001, 941));
    assert(gcd_nat(1001, 941) == gcd_nat(941, 60));
    assert(gcd_nat(941, 60) == gcd_nat(60, 41));
    assert(gcd_nat(60, 41) == gcd_nat(41, 19));
    assert(gcd_nat(41, 19) == gcd_nat(19, 3));
    assert(gcd_nat(19, 3) == gcd_nat(3, 1));
    assert(gcd_nat(3, 1) == gcd_nat(1, 0));
    assert(gcd_nat(1, 0) == 1);
    assert(gcd_nat(24, 1) == gcd_nat(1, 0));
    assert(gcd_nat(1, 0) == 1);
    assert(gcd_nat(30, 1) == gcd_nat(1, 0));
    assert(gcd_nat(1, 0) == 1);
    assert(gcd_nat(48, 1) == gcd_nat(1, 0));
    assert(gcd_nat(1, 0) == 1);
    assert(gcd_nat(60, 1) == gcd_nat(1, 0));
    assert(gcd_nat(1, 0) == 1);
}

/// The drop-frame constants meet the drop-frame divisibility rule.
proof fn lemma_df_rates_divisible()
    ensures
        (1001 * 30000) % (30000 * 1001) == 0,
        (1001 * 60000) % (30000 * 1001) == 0,
{
    vstd::arithmetic::div_mod::lemma_mod_multiples_basic(1, 30030000);
    vstd::arithmetic::div_mod::lemma_mod_multiples_basic(2, 30030000);
    assert(1 * 30030000 == 30030000);
    assert(2 * 30030000 == 60060000);
}

/// 23.98 NTSC non-drop-frame.
pub fn f23_98() -> (r: Framerate)
    ensures
        r.wf(),
        r@.playback == (Rat { n: 24000, d: 1001 }),
        r@.ntsc == Ntsc::NonDropFrame,
{
    proof {
        lemma_rate_pairs_reduced();
    }
    Framerate::from_parts(Rational::from_reduced_parts(24000, 1001), Ntsc::NonDropFrame)
}

/// 24 fps.
pub fn f24() -> (r: Framerate)
    ensures
        r.wf(),
        r@.playback == (Rat { n: 24, d: 1 }),
        r@.ntsc == Ntsc::NotNtsc,
{
    proof {
        lemma_rate_pairs_reduced();
    }
    Framerate::from_parts(Rational::from_reduced_parts(24, 1), Ntsc::NotNtsc)
}

/// 29.97 NTSC non-drop-frame.
pub fn f29_97_ndf() -> (r: Framerate)
    ensures
        r.wf(),
        r@.playback == (Rat { n: 30000, d: 1001 }),
        r@.ntsc == Ntsc::NonDropFrame,
{
    proof {
        lemma_rate_pairs_reduced();
    }
    Framerate::from_parts(Rational::from_reduced_parts(30000, 1001), Ntsc::NonDropFrame)
}

/// 29.97 NTSC drop-frame.
pub fn f29_97_df() -> (r: Framerate)
    ensures
        r.wf(),
        r@.playback == (Rat { n: 30000, d: 1001 }),
        r@.ntsc == Ntsc::DropFrame,
{
    proof {
        lemma_rate_pairs_reduced();
        lemma_df_rates_divisible();
    }
    Framerate::from_parts(Rational::from_reduced_parts(30000, 1001), Ntsc::DropFrame)
}

/// 30 fps.
pub fn f30() -> (r: Framerate)
    ensures
        r.wf(),
        r@.playback == (Rat { n: 30, d: 1 }),
        r@.ntsc == Ntsc::NotNtsc,
{
    proof {
        lemma_rate_pairs_reduced();
    }
    Framerate::from_parts(Rational::from_reduced_parts(30, 1), Ntsc::NotNtsc)
}

/// 47.95 NTSC non-drop-frame.
pub fn f47_95() -> (r: Framerate)
    ensures
        r.wf(),
        r@.playback == (Rat { n: 48000, d: 1001 }),
        r@.ntsc == Ntsc::NonDropFrame,
{
    proof {
        lemma_rate_pairs_reduced();
    }
    Framerate::from_parts(Rational::from_reduced_parts(48000, 1001), Ntsc::NonDropFrame)
}

/// 48 fps.
pub fn f48() -> (r: Framerate)
    ensures
        r.wf(),
        r@.playback == (Rat { n: 48, d: 1 }),
        r@.ntsc == Ntsc::NotNtsc,
{
    proof {
        lemma_rate_pairs_reduced();
    }
    Framerate::from_parts(Rational::from_reduced_parts(48, 1), Ntsc::NotNtsc)
}

/// 59.94 NTSC non-drop-frame.
pub fn f59_94_ndf() -> (r: Framerate)
    ensures
        r.wf(),
        r@.playback == (Rat { n: 60000, d: 1001 }),
        r@.ntsc == Ntsc::NonDropFrame,
{
    proof {
        lemma_rate_pairs_reduced();
    }
    Framerate::from_parts(Rational::from_reduced_parts(60000, 1001), Ntsc::NonDropFrame)
}

/// 59.94 NTSC drop-frame.
pub fn f59_94_df() -> (r: Framerate)
    ensures
        r.wf(),
        r@.playback == (Rat { n: 60000, d: 1001 }),
        r@.ntsc == Ntsc::DropFrame,
{
    proof {
        lemma_rate_pairs_reduced();
        lemma_df_rates_divisible();
    }
    Framerate::from_parts(Rational::from_reduced_parts(60000, 1001), Ntsc::DropFrame)
}

/// 60 fps.
pub fn f60() -> (r: Framerate)
    ensures
        r.wf(),
        r@.playback == (Rat { n: 60, d: 1 }),
        r@.ntsc == Ntsc::NotNtsc,
{
    proof {
        lemma_rate_pairs_reduced();
    }
    Framerate::from_parts(Rational::from_reduced_parts(60, 1), Ntsc::NotNtsc)
}

} // verus!
