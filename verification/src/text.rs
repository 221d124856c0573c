//! Decimal digit sequences: what a digit run means as a number, and how
//! a number is written out, with the padded forms the timecode and
//! footage strings use.

use vstd::prelude::*;
use vstd::string::StrSliceExecFns;
use vstd::string::StringExecFns;

verus! {

/// `c` is an ASCII decimal digit.
pub open spec fn is_dec_digit(c: char) -> bool {
    48 <= c as u32 <= 57
}

/// Numeric value of a digit character.
pub open spec fn digit_val(c: char) -> int {
    c as u32 - 48
}

/// The digit character for a value in `0..10`.
pub open spec fn digit_char(d: int) -> char {
    if d == 0 {
        '0'
    } else if d == 1 {
        '1'
    } else if d == 2 {
        '2'
    } else if d == 3 {
        '3'
    } else if d == 4 {
        '4'
    } else if d == 5 {
        '5'
    } else if d == 6 {
        '6'
    } else if d == 7 {
        '7'
    } else if d == 8 {
        '8'
    } else {
        '9'
    }
}

/// Every character of `s` is a decimal digit.
pub open spec fn all_digits(s: Seq<char>) -> bool {
    forall|i: int| 0 <= i < s.len() ==> is_dec_digit(#[trigger] s[i])
}

/// The number a digit run denotes, most significant digit first.
pub open spec fn dec_val(s: Seq<char>) -> int
    decreases s.len(),
{
    if s.len() == 0 {
        0
    } else {
        dec_val(s.drop_last()) * 10 + digit_val(s.last())
    }
}

/// The canonical decimal writing of `n`, without leading zeros.
pub open spec fn dec_digits(n: nat) -> Seq<char>
    decreases n,
{
    if n < 10 {
        seq![digit_char(n as int)]
    } else {
        dec_digits(n / 10).push(digit_char((n % 10) as int))
    }
}

/// The decimal writing of `n`, zero-padded on the left to two places.
pub open spec fn pad2(n: nat) -> Seq<char> {
    if n < 10 {
        seq!['0'].add(dec_digits(n))
    } else {
        dec_digits(n)
    }
}

/// A digit run is worth at least any of its prefixes.
pub proof fn lemma_dec_val_prefix_le(s: Seq<char>, i: int)
    requires
        all_digits(s),
        0 <= i <= s.len(),
    ensures
        0 <= dec_val(s.take(i)),
        dec_val(s.take(i)) <= dec_val(s),
    decreases s.len() - i,
{
    lemma_dec_val_nonneg(s.take(i));
    if i < s.len() {
        lemma_dec_val_prefix_le(s, i + 1);
        assert(s.take(i + 1).drop_last() =~= s.take(i));
        assert(s.take(i + 1).last() == s[i]);
        assert(dec_val(s.take(i + 1)) == dec_val(s.take(i)) * 10 + digit_val(s[i]));
        lemma_dec_val_nonneg(s.take(i));
        assert(dec_val(s.take(i)) <= dec_val(s.take(i)) * 10) by (nonlinear_arith)
            requires
                dec_val(s.take(i)) >= 0,
        {
        }
    } else {
        assert(s.take(i) =~= s);
    }
}

/// A digit run denotes a non-negative number.
pub proof fn lemma_dec_val_nonneg(s: Seq<char>)
    requires
        all_digits(s),
    ensures
        dec_val(s) >= 0,
    decreases s.len(),
{
    if s.len() > 0 {
        assert(all_digits(s.drop_last())) by {
            assert(forall|i: int|
                0 <= i < s.len() - 1 ==> is_dec_digit(#[trigger] s.drop_last()[i]));
        }
        lemma_dec_val_nonneg(s.drop_last());
        assert(dec_val(s.drop_last()) * 10 >= 0) by (nonlinear_arith)
            requires
                dec_val(s.drop_last()) >= 0,
        {
        }
    }
}

/// Index of the first occurrence of `c` in `s`, or `-1`.
pub open spec fn first_idx(s: Seq<char>, c: char) -> int
    decreases s.len(),
{
    if s.len() == 0 {
        -1
    } else if s[0] == c {
        0
    } else {
        let r = first_idx(s.skip(1), c);
        if r == -1 {
            -1
        } else {
            r + 1
        }
    }
}

/// What `first_idx` finds: the position of `c`, before which `c` does
/// not occur; or `-1` when `c` does not occur at all.
pub proof fn lemma_first_idx(s: Seq<char>, c: char)
    ensures
        first_idx(s, c) == -1 ==> forall|i: int| 0 <= i < s.len() ==> s[i] != c,
        first_idx(s, c) != -1 ==> 0 <= first_idx(s, c) < s.len() && s[first_idx(s, c)] == c
            && forall|j: int| 0 <= j < first_idx(s, c) ==> s[j] != c,
    decreases s.len(),
{
    if s.len() == 0 {
    } else if s[0] == c {
    } else {
        lemma_first_idx(s.skip(1), c);
        let r = first_idx(s.skip(1), c);
        if r == -1 {
            assert forall|i: int| 0 <= i < s.len() implies s[i] != c by {
                if i > 0 {
                    assert(s.skip(1)[i - 1] == s[i]);
                }
            }
        } else {
            assert(s[r + 1] == s.skip(1)[r]);
            assert forall|j: int| 0 <= j < r + 1 implies s[j] != c by {
                if j > 0 {
                    assert(s.skip(1)[j - 1] == s[j]);
                }
            }
        }
    }
}

/// Find the first occurrence of `c` in `s`.
pub fn find_first(s: &str, c: char) -> (r: Option<usize>)
    ensures
        first_idx(s@, c) >= 0 ==> r == Some(first_idx(s@, c) as usize),
        first_idx(s@, c) == -1 ==> r == None::<usize>,
{
    proof {
        lemma_first_idx(s@, c);
    }
    let len = s.unicode_len();
    let mut i: usize = 0;
    while i < len
        invariant
            0 <= i <= len,
            len == s@.len(),
            forall|j: int| 0 <= j < i ==> s@[j] != c,
        decreases len - i,
    {
        if s.get_char(i) == c {
            proof {
                lemma_first_idx(s@, c);
            }
            return Some(i);
        }
        i = i + 1;
    }
    None
}

/// Find the first occurrence of `c` at or after `from`.
#[verifier::loop_isolation(false)]
pub fn find_from(s: &str, from: usize, c: char) -> (r: Option<usize>)
    requires
        from <= s@.len(),
    ensures
        first_idx(s@.skip(from as int), c) >= 0 ==> r == Some(
            (from + first_idx(s@.skip(from as int), c)) as usize,
        ),
        first_idx(s@.skip(from as int), c) == -1 ==> r == None::<usize>,
{
    let ghost suf = s@.skip(from as int);
    proof {
        lemma_first_idx(suf, c);
    }
    let len = s.unicode_len();
    let mut i: usize = from;
    while i < len
        invariant
            from <= i <= len,
            forall|j: int| from <= j < i ==> s@[j] != c,
        decreases len - i,
    {
        if s.get_char(i) == c {
            proof {
                let fi = first_idx(suf, c);
                assert(suf[i - from] == s@[i as int]);
                if fi == -1 {
                    assert(false);
                } else {
                    assert(suf[fi] == s@[from + fi]);
                    if fi < i - from {
                        assert(s@[from + fi] != c);
                        assert(false);
                    } else if fi > i - from {
                        assert(suf[i - from] != c);
                        assert(false);
                    }
                }
            }
            return Some(i);
        }
        i = i + 1;
    }
    proof {
        let fi = first_idx(suf, c);
        if fi >= 0 {
            assert(suf[fi] == s@[from + fi]);
            assert(false);
        }
    }
    None
}

/// An optionally signed, non-empty digit run.
pub open spec fn signed_digits(s: Seq<char>) -> bool {
    if s.len() > 0 && (s[0] == '-' || s[0] == '+') {
        s.len() >= 2 && all_digits(s.skip(1))
    } else {
        s.len() >= 1 && all_digits(s)
    }
}

/// The run carries a minus sign.
pub open spec fn signed_neg(s: Seq<char>) -> bool {
    s.len() > 0 && s[0] == '-'
}

/// The digit part of an optionally signed run.
pub open spec fn signed_mag(s: Seq<char>) -> Seq<char> {
    if s.len() > 0 && (s[0] == '-' || s[0] == '+') {
        s.skip(1)
    } else {
        s
    }
}

/// The value an optionally signed digit run denotes.
pub open spec fn signed_val(s: Seq<char>) -> int {
    if signed_neg(s) {
        -dec_val(signed_mag(s))
    } else {
        dec_val(signed_mag(s))
    }
}

/// Decide whether `s[from..to)` is an optionally signed digit run.
#[verifier::loop_isolation(false)]
pub fn check_signed_digits(s: &str, from: usize, to: usize) -> (r: bool)
    requires
        from <= to <= s@.len(),
    ensures
        r == signed_digits(s@.subrange(from as int, to as int)),
{
    let ghost run = s@.subrange(from as int, to as int);
    if from == to {
        return false;
    }
    let c0 = s.get_char(from);
    let start: usize = if c0 == '-' || c0 == '+' {
        from + 1
    } else {
        from
    };
    proof {
        assert(run[0] == s@[from as int]);
    }
    if start == to {
        return false;
    }
    let mut i: usize = start;
    while i < to
        invariant
            start <= i <= to <= s@.len(),
            from <= start,
            forall|j: int| start <= j < i ==> is_dec_digit(#[trigger] s@[j]),
        decreases to - i,
    {
        let c = s.get_char(i);
        let u = c as u32;
        if u < 48 || u > 57 {
            proof {
                assert(s@[i as int] == run[i - from]);
                if start > from {
                    assert(run.skip(1)[i - from - 1] == run[i - from]);
                    assert(!all_digits(run.skip(1)));
                } else {
                    assert(!all_digits(run));
                }
            }
            return false;
        }
        i = i + 1;
    }
    proof {
        if start > from {
            assert(all_digits(run.skip(1))) by {
                assert(forall|j: int|
                    0 <= j < run.skip(1).len() ==> run.skip(1)[j] == s@[from + 1 + j]
                        && is_dec_digit(#[trigger] run.skip(1)[j]));
            }
        } else {
            assert(all_digits(run)) by {
                assert(forall|j: int|
                    0 <= j < run.len() ==> run[j] == s@[from + j] && is_dec_digit(
                        #[trigger] run[j],
                    ));
            }
        }
    }
    true
}

/// Read an optionally signed digit run as a sign and a magnitude;
/// `None` when the magnitude exceeds `i64::MAX`.
pub fn parse_signed(s: &str, from: usize, to: usize) -> (r: Option<(bool, i64)>)
    requires
        from <= to <= s@.len(),
        signed_digits(s@.subrange(from as int, to as int)),
    ensures
        r matches Some(p) ==> p.0 == signed_neg(s@.subrange(from as int, to as int)) && p.1 as int
            == dec_val(signed_mag(s@.subrange(from as int, to as int))) && p.1 >= 0,
        r.is_some() <==> dec_val(signed_mag(s@.subrange(from as int, to as int))) <= i64::MAX,
{
    let ghost run = s@.subrange(from as int, to as int);
    let c0 = s.get_char(from);
    proof {
        assert(run[0] == s@[from as int]);
    }
    let neg = c0 == '-';
    let start: usize = if c0 == '-' || c0 == '+' {
        from + 1
    } else {
        from
    };
    proof {
        if start > from {
            assert(signed_mag(run) =~= s@.subrange(start as int, to as int));
        } else {
            assert(signed_mag(run) =~= s@.subrange(start as int, to as int));
        }
    }
    match parse_digits_i64(s, start, to) {
        Some(v) => Some((neg, v)),
        None => None,
    }
}

/// Every character of `s` is the digit zero.
pub open spec fn all_zeros(s: Seq<char>) -> bool {
    forall|i: int| 0 <= i < s.len() ==> #[trigger] s[i] == '0'
}

/// Decide whether `s[from..to)` is a non-empty unsigned digit run.
#[verifier::loop_isolation(false)]
pub fn check_digit_run(s: &str, from: usize, to: usize) -> (r: bool)
    requires
        from <= to <= s@.len(),
    ensures
        r == (to > from && all_digits(s@.subrange(from as int, to as int))),
{
    let ghost run = s@.subrange(from as int, to as int);
    if from == to {
        return false;
    }
    let mut i: usize = from;
    while i < to
        invariant
            from <= i <= to,
            forall|j: int| from <= j < i ==> is_dec_digit(#[trigger] s@[j]),
        decreases to - i,
    {
        let c = s.get_char(i);
        let u = c as u32;
        if u < 48 || u > 57 {
            proof {
                assert(run[i - from] == s@[i as int]);
            }
            return false;
        }
        i = i + 1;
    }
    proof {
        assert(forall|j: int| 0 <= j < run.len() ==> run[j] == s@[from + j]);
    }
    true
}

/// Decide whether every character of `s[from..to)` is the digit zero.
#[verifier::loop_isolation(false)]
pub fn check_zero_run(s: &str, from: usize, to: usize) -> (r: bool)
    requires
        from <= to <= s@.len(),
    ensures
        r == all_zeros(s@.subrange(from as int, to as int)),
{
    let ghost run = s@.subrange(from as int, to as int);
    let mut i: usize = from;
    while i < to
        invariant
            from <= i <= to,
            forall|j: int| from <= j < i ==> #[trigger] s@[j] == '0',
        decreases to - i,
    {
        let c = s.get_char(i);
        if c != '0' {
            proof {
                assert(run[i - from] == s@[i as int]);
            }
            return false;
        }
        i = i + 1;
    }
    proof {
        assert(forall|j: int| 0 <= j < run.len() ==> run[j] == s@[from + j]);
    }
    true
}

/// A one-character string for a digit value.
fn digit_str(d: u64) -> (r: &'static str)
    requires
        d < 10,
    ensures
        r@ =~= seq![digit_char(d as int)],
{
    proof {
        reveal_strlit("0");
        reveal_strlit("1");
        reveal_strlit("2");
        reveal_strlit("3");
        reveal_strlit("4");
        reveal_strlit("5");
        reveal_strlit("6");
        reveal_strlit("7");
        reveal_strlit("8");
        reveal_strlit("9");
    }
    if d == 0 {
        "0"
    } else if d == 1 {
        "1"
    } else if d == 2 {
        "2"
    } else if d == 3 {
        "3"
    } else if d == 4 {
        "4"
    } else if d == 5 {
        "5"
    } else if d == 6 {
        "6"
    } else if d == 7 {
        "7"
    } else if d == 8 {
        "8"
    } else {
        "9"
    }
}

/// Write `n` in decimal.
pub fn u64_to_dec(n: u64) -> (r: String)
    ensures
        r@ == dec_digits(n as nat),
    decreases n,
{
    if n < 10 {
        let s = digit_str(n);
        let r = s.to_owned();
        assert(r@ =~= dec_digits(n as nat));
        r
    } else {
        let mut r = u64_to_dec(n / 10);
        r.append(digit_str(n % 10));
        assert(r@ =~= dec_digits(n as nat));
        r
    }
}

/// Write `n` in decimal, zero-padded to at least two places.
pub fn u64_to_dec_pad2(n: u64) -> (r: String)
    ensures
        r@ == pad2(n as nat),
{
    if n < 10 {
        let mut r = digit_str(0).to_owned();
        r.append(u64_to_dec(n).as_str());
        assert(r@ =~= pad2(n as nat)) by {
            reveal_strlit("0");
        }
        r
    } else {
        u64_to_dec(n)
    }
}

/// Read the digit run `s[from..to)` as a number; `None` when it exceeds
/// `i64::MAX`.
pub fn parse_digits_i64(s: &str, from: usize, to: usize) -> (r: Option<i64>)
    requires
        from <= to <= s@.len(),
        all_digits(s@.subrange(from as int, to as int)),
    ensures
        r matches Some(v) ==> v as int == dec_val(s@.subrange(from as int, to as int)) && v >= 0,
        r.is_some() <==> dec_val(s@.subrange(from as int, to as int)) <= i64::MAX,
{
    let ghost run = s@.subrange(from as int, to as int);
    let mut acc: i64 = 0;
    let mut i: usize = from;
    proof {
        assert(run.take(0) =~= Seq::<char>::empty());
    }
    while i < to
        invariant
            from <= i <= to <= s@.len(),
            all_digits(run),
            run == s@.subrange(from as int, to as int),
            0 <= acc,
            acc as int == dec_val(run.take(i - from)),
        decreases to - i,
    {
        let c = s.get_char(i);
        proof {
            assert(run[i - from] == s@[i as int]);
            assert(is_dec_digit(run[i - from]));
        }
        let d: u64 = (c as u32 as u64) - 48;
        proof {
            assert(run.take(i + 1 - from).drop_last() =~= run.take(i - from));
            assert(run.take(i + 1 - from).last() == run[i - from]);
        }
        if acc > (i64::MAX - (d as i64)) / 10 {
            proof {
                assert(dec_val(run.take(i + 1 - from)) > i64::MAX);
                lemma_dec_val_prefix_le(run, i + 1 - from);
            }
            return None;
        }
        acc = acc * 10 + (d as i64);
        i = i + 1;
    }
    proof {
        assert(run.take(to - from) =~= run);
    }
    Some(acc)
}


/// Ten to the `k`.
pub open spec fn pow10(k: nat) -> int
    decreases k,
{
    if k == 0 {
        1
    } else {
        10 * pow10((k - 1) as nat)
    }
}

/// Ten to any power is positive.
pub proof fn lemma_pow10_pos(k: nat)
    ensures
        pow10(k) >= 1,
    decreases k,
{
    if k > 0 {
        lemma_pow10_pos((k - 1) as nat);
    }
}

/// Powers of ten grow with the exponent.
pub proof fn lemma_pow10_le(a: nat, b: nat)
    requires
        a <= b,
    ensures
        1 <= pow10(a) <= pow10(b),
    decreases b,
{
    lemma_pow10_pos(a);
    if a < b {
        lemma_pow10_le(a, (b - 1) as nat);
        lemma_pow10_pos((b - 1) as nat);
    }
}

/// A digit run of length `k` is worth less than ten to the `k`.
pub proof fn lemma_dec_val_bound(s: Seq<char>)
    requires
        all_digits(s),
    ensures
        0 <= dec_val(s) < pow10(s.len()),
    decreases s.len(),
{
    if s.len() == 0 {
    } else {
        assert(all_digits(s.drop_last())) by {
            assert(forall|i: int|
                0 <= i < s.len() - 1 ==> is_dec_digit(#[trigger] s.drop_last()[i]));
        }
        lemma_dec_val_bound(s.drop_last());
        assert(dec_val(s) < pow10(s.len())) by (nonlinear_arith)
            requires
                dec_val(s) == dec_val(s.drop_last()) * 10 + digit_val(s.last()),
                0 <= dec_val(s.drop_last()) < pow10((s.len() - 1) as nat),
                0 <= digit_val(s.last()) <= 9,
                pow10(s.len()) == 10 * pow10((s.len() - 1) as nat),
        {
        }
        lemma_dec_val_nonneg(s);
    }
}

/// Compute ten to the `k` for small exponents.
pub fn pow10_u64(k: usize) -> (r: u64)
    requires
        k <= 18,
    ensures
        r as int == pow10(k as nat),
        r >= 1,
{
    let mut i: usize = 0;
    let mut acc: u64 = 1;
    while i < k
        invariant
            i <= k <= 18,
            acc as int == pow10(i as nat),
            1 <= acc,
            acc <= 0x0de0_b6b3_a764_0000,
        decreases k - i,
    {
        proof {
            lemma_pow10_le((i + 1) as nat, 18);
            assert(pow10(18) == 1000000000000000000) by {
                reveal_with_fuel(pow10, 19);
            }
        }
        acc = acc * 10;
        i = i + 1;
    }
    acc
}


/// The canonical decimal writing is all digits and reads back to the
/// number it was written from.
pub proof fn lemma_dec_digits_val(n: nat)
    ensures
        all_digits(dec_digits(n)),
        dec_val(dec_digits(n)) == n,
        dec_digits(n).len() >= 1,
    decreases n,
{
    if n < 10 {
        assert(dec_digits(n) =~= seq![digit_char(n as int)]);
        assert(is_dec_digit(digit_char(n as int)) && digit_val(digit_char(n as int)) == n);
        assert(dec_val(dec_digits(n)) == dec_val(dec_digits(n).drop_last()) * 10 + digit_val(
            dec_digits(n).last(),
        ));
        assert(dec_digits(n).drop_last() =~= Seq::<char>::empty());
    } else {
        lemma_dec_digits_val(n / 10);
        let w = dec_digits(n / 10).push(digit_char((n % 10) as int));
        assert(w.drop_last() =~= dec_digits(n / 10));
        assert(w.last() == digit_char((n % 10) as int));
        assert(is_dec_digit(digit_char((n % 10) as int)) && digit_val(
            digit_char((n % 10) as int),
        ) == n % 10);
        assert forall|i: int| 0 <= i < w.len() implies is_dec_digit(#[trigger] w[i]) by {
            if i < w.len() - 1 {
                assert(w[i] == dec_digits(n / 10)[i]);
            }
        }
        vstd::arithmetic::div_mod::lemma_fundamental_div_mod(n as int, 10);
    }
}

/// The two-place padded writing is all digits and reads back to the
/// number it was written from.
pub proof fn lemma_pad2_val(n: nat)
    ensures
        all_digits(pad2(n)),
        dec_val(pad2(n)) == n,
        pad2(n).len() >= 2,
{
    lemma_dec_digits_val(n);
    if n >= 10 {
        lemma_dec_digits_val(n / 10);
        assert(dec_digits(n) == dec_digits(n / 10).push(digit_char((n % 10) as int)));
        assert(dec_digits(n).len() >= 2);
    }
    if n < 10 {
        let w = seq!['0'].add(dec_digits(n));
        assert(w.drop_last() =~= seq!['0']);
        assert(w.last() == dec_digits(n)[0]);
        assert(dec_digits(n) =~= seq![digit_char(n as int)]);
        assert(dec_val(seq!['0']) == 0) by {
            assert(dec_val(Seq::<char>::empty()) == 0);
            assert(seq!['0'].drop_last() =~= Seq::<char>::empty());
            assert(seq!['0'].last() == '0');
            assert(digit_val('0') == 0);
        }
        assert(dec_val(w) == 0 * 10 + digit_val(digit_char(n as int)));
        assert forall|i: int| 0 <= i < w.len() implies is_dec_digit(#[trigger] w[i]) by {
            if i == 0 {
                assert(w[0] == '0');
            } else {
                assert(w[i] == dec_digits(n)[i - 1]);
            }
        }
    }
}


/// The decimal writing of `n` in exactly `w` places (leading zeros
/// kept, high digits beyond `w` dropped).
pub open spec fn dec_digits_padded(n: int, w: nat) -> Seq<char>
    decreases w,
{
    if w == 0 {
        Seq::<char>::empty()
    } else {
        dec_digits_padded(n / 10, (w - 1) as nat).push(digit_char(n % 10))
    }
}


/// A one-character owned string for a digit value.
pub fn digit_string(d: u64) -> (r: String)
    requires
        d < 10,
    ensures
        r@ == seq![digit_char(d as int)],
{
    let r = digit_str(d).to_owned();
    proof {
        assert(r@ =~= seq![digit_char(d as int)]);
    }
    r
}


/// A character found at `k`, with no earlier occurrence, is the first.
pub proof fn lemma_first_idx_at(s: Seq<char>, c: char, k: int)
    requires
        0 <= k < s.len(),
        s[k] == c,
        forall|j: int| 0 <= j < k ==> s[j] != c,
    ensures
        first_idx(s, c) == k,
{
    lemma_first_idx(s, c);
    let fi = first_idx(s, c);
    if fi == -1 {
        assert(false);
    } else if fi < k {
        assert(s[fi] != c);
        assert(false);
    } else if fi > k {
        assert(s[k] != c);
        assert(false);
    }
}

/// A character that never occurs has no first occurrence.
pub proof fn lemma_first_idx_absent(s: Seq<char>, c: char)
    requires
        forall|j: int| 0 <= j < s.len() ==> s[j] != c,
    ensures
        first_idx(s, c) == -1,
{
    lemma_first_idx(s, c);
    let fi = first_idx(s, c);
    if fi != -1 {
        assert(s[fi] != c);
        assert(false);
    }
}

} // verus!
