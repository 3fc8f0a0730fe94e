//! Normalisation of a focal-length tag's text into a fixed-point value.
//!
//! A focal length is held as a whole number of micrometres (`u64`): the text
//! `"24.5 mm"` stands for 24 500 micrometres. Fraction digits beyond the
//! sixth are read, checked, and dropped.
use vstd::prelude::*;

verus! {

/// Micrometres in one millimetre: the resolution of a normalised value.
pub const MICROS_PER_MM: u64 = 1_000_000;

/// The largest whole number of millimetres whose micrometres fit a `u64`.
const MAX_WHOLE_MM: u64 = 18_446_744_073_709;

pub open spec fn is_digit(c: char) -> bool {
    '0' <= c && c <= '9'
}

pub open spec fn digit_value(c: char) -> nat {
    (c as u32 - '0' as u32) as nat
}

pub open spec fn all_digits(s: Seq<char>) -> bool {
    forall|i: int| 0 <= i < s.len() ==> is_digit(#[trigger] s[i])
}

/// The number that a run of decimal digits writes.
pub open spec fn digits_value(s: Seq<char>) -> nat
    decreases s.len(),
{
    if s.len() == 0 {
        0
    } else {
        digits_value(s.drop_last()) * 10 + digit_value(s.last())
    }
}

pub open spec fn pow10(n: nat) -> nat
    decreases n,
{
    if n == 0 {
        1
    } else {
        10 * pow10((n - 1) as nat)
    }
}

/// The text without a trailing unit, `" mm"` or `"mm"`.
pub open spec fn number_part(t: Seq<char>) -> Seq<char> {
    if t.len() >= 3 && t.subrange(t.len() - 3, t.len() as int) == seq![' ', 'm', 'm'] {
        t.take(t.len() - 3)
    } else if t.len() >= 2 && t.subrange(t.len() - 2, t.len() as int) == seq!['m', 'm'] {
        t.take(t.len() - 2)
    } else {
        t
    }
}

/// `n` is digits, a point at `p`, and digits, with at least one digit on each side.
pub open spec fn point_at(n: Seq<char>, p: int) -> bool {
    &&& 0 < p < n.len() - 1
    &&& n[p] == '.'
    &&& all_digits(n.take(p))
    &&& all_digits(n.skip(p + 1))
}

/// The micrometres that the fraction digits `f` stand for (the first six count).
pub open spec fn fraction_micros(f: Seq<char>) -> nat {
    let k = if f.len() < 6 { f.len() } else { 6 };
    digits_value(f.take(k as int)) * pow10((6 - k) as nat)
}

/// The value in micrometres of a decimal number `n` (`"50"`, `"5.6"`), if `n` is one.
pub open spec fn decimal_micros(n: Seq<char>) -> Option<nat> {
    if n.len() > 0 && all_digits(n) {
        Some(digits_value(n) * 1_000_000)
    } else if exists|p: int| point_at(n, p) {
        let p = choose|p: int| point_at(n, p);
        Some(digits_value(n.take(p)) * 1_000_000 + fraction_micros(n.skip(p + 1)))
    } else {
        None
    }
}

/// The normalised focal length of a tag's text: `None` where the text is no
/// decimal number (after an optional unit) or the value does not fit a `u64`.
pub open spec fn focal_micros(t: Seq<char>) -> Option<u64> {
    match decimal_micros(number_part(t)) {
        Some(v) => if v <= u64::MAX { Some(v as u64) } else { None },
        None => None,
    }
}


proof fn lemma_digits_monotone(s: Seq<char>, i: int, j: int)
    requires
        0 <= i <= j <= s.len(),
    ensures
        digits_value(s.take(i)) <= digits_value(s.take(j)),
    decreases j - i,
{
    if i < j {
        assert(s.take(j).drop_last() =~= s.take(j - 1));
        lemma_digits_monotone(s, i, j - 1);
    }
}

proof fn lemma_pow10_small(k: nat)
    requires
        k <= 6,
    ensures
        1 <= pow10(k) <= 1_000_000,
        k < 6 ==> pow10(k + 1) == 10 * pow10(k),
{
    assert(pow10(0) == 1);
    assert(pow10(1) == 10);
    assert(pow10(2) == 100);
    assert(pow10(3) == 1000);
    assert(pow10(4) == 10000);
    assert(pow10(5) == 100000);
    assert(pow10(6) == 1000000);
}

/// A point, if `n` has one between digits, can only stand at the first non-digit.
proof fn lemma_point_only_at(n: Seq<char>, i: int)
    requires
        0 <= i < n.len(),
        all_digits(n.take(i)),
        !is_digit(n[i]),
    ensures
        !all_digits(n),
        forall|p: int| point_at(n, p) ==> p == i,
{
    assert(!is_digit(n[i]));
    assert forall|p: int| point_at(n, p) implies p == i by {
        if p < i {
            assert(n.take(i)[p] == n[p]);
        } else if p > i {
            assert(n.take(p)[i] == n[i]);
        }
    }
}

fn digit_of(c: char) -> (r: Option<u64>)
    ensures
        r is Some <==> is_digit(c),
        r matches Some(d) ==> d as nat == digit_value(c) && d <= 9,
{
    if '0' <= c && c <= '9' {
        Some((c as u32 - '0' as u32) as u64)
    } else {
        None
    }
}

/// Where the number in `text` ends: before a trailing `" mm"` or `"mm"`.
fn number_end(text: &str, len: usize) -> (end: usize)
    requires
        len == text@.len(),
    ensures
        end <= len,
        text@.take(end as int) == number_part(text@),
{
    let ghost t = text@;
    if len >= 3 && text.get_char(len - 3) == ' ' && text.get_char(len - 2) == 'm'
        && text.get_char(len - 1) == 'm' {
        assert(t.subrange(len - 3, len as int) =~= seq![' ', 'm', 'm']);
        len - 3
    } else if len >= 2 && text.get_char(len - 2) == 'm' && text.get_char(len - 1) == 'm' {
        proof {
            assert(t.subrange(len - 2, len as int) =~= seq!['m', 'm']);
            if len >= 3 && t.subrange(len - 3, len as int) == seq![' ', 'm', 'm'] {
                assert(t.subrange(len - 3, len as int)[0] == t[len - 3]);
            }
        }
        len - 2
    } else {
        proof {
            if len >= 3 && t.subrange(len - 3, len as int) == seq![' ', 'm', 'm'] {
                assert(t.subrange(len - 3, len as int)[0] == t[len - 3]);
                assert(t.subrange(len - 3, len as int)[1] == t[len - 2]);
                assert(t.subrange(len - 3, len as int)[2] == t[len - 1]);
            }
            if len >= 2 && t.subrange(len - 2, len as int) == seq!['m', 'm'] {
                assert(t.subrange(len - 2, len as int)[0] == t[len - 2]);
                assert(t.subrange(len - 2, len as int)[1] == t[len - 1]);
            }
            assert(t.take(len as int) =~= t);
        }
        len
    }
}


/// Reads a focal-length tag's text (`"50"`, `"5.6"`, `"24.0 mm"`) as micrometres.
/// `None` where the text is no decimal number or the value does not fit a `u64`.
pub fn parse_focal_length(text: &str) -> (r: Option<u64>)
    ensures
        r == focal_micros(text@),
{
    let len = text.unicode_len();
    let end = number_end(text, len);
    let ghost n = text@.take(end as int);
    assert(n.len() == end);
    let mut i: usize = 0;
    let mut whole: u64 = 0;
    while i < end
        invariant
            end <= text@.len(),
            n == text@.take(end as int),
            n == number_part(text@),
            n.len() == end,
            i <= end,
            all_digits(n.take(i as int)),
            whole as nat == digits_value(n.take(i as int)),
            whole <= MAX_WHOLE_MM,
        ensures
            i <= end,
            all_digits(n.take(i as int)),
            whole as nat == digits_value(n.take(i as int)),
            whole <= MAX_WHOLE_MM,
            i < end ==> !is_digit(n[i as int]),
        decreases end - i,
    {
        let c = text.get_char(i);
        assert(n[i as int] == c);
        match digit_of(c) {
            None => break,
            Some(d) => {
                proof {
                    assert(n.take(i + 1).drop_last() =~= n.take(i as int));
                    assert forall|k: int| 0 <= k < i + 1 implies is_digit(#[trigger] n.take(i + 1)[k]) by {
                        if k < i {
                            assert(n.take(i + 1)[k] == n.take(i as int)[k]);
                        }
                    }
                }
                if whole > (MAX_WHOLE_MM - d) / 10 {
                    proof {
                        let big = digits_value(n.take(i + 1));
                        assert(n.take(i + 1).last() == c);
                        assert(big == whole * 10 + d);
                        assert(whole * 10 + d > MAX_WHOLE_MM);
                        assert(big > MAX_WHOLE_MM);
                        if n.len() > 0 && all_digits(n) {
                            lemma_digits_monotone(n, i + 1, n.len() as int);
                            assert(n.take(n.len() as int) =~= n);
                        } else if exists|p: int| point_at(n, p) {
                            let p = choose|p: int| point_at(n, p);
                            if p <= i {
                                assert(n.take(i + 1)[p] == n[p]);
                            }
                            lemma_digits_monotone(n, i + 1, p);
                            assert(digits_value(n.take(p)) * 1_000_000 > u64::MAX);
                        }
                        assert(decimal_micros(n) is None || decimal_micros(n).unwrap() > u64::MAX);
                    }
                    return None;
                }
                whole = whole * 10 + d;
                i += 1;
            }
        }
    }
    if i == end {
        if end == 0 {
            return None;
        }
        assert(n.take(end as int) =~= n);
        return Some(whole * MICROS_PER_MM);
    }
    proof {
        lemma_point_only_at(n, i as int);
    }
    if i == 0 || text.get_char(i) != '.' || i + 1 == end {
        return None;
    }
    let ghost f = n.skip(i + 1);
    let mut j: usize = i + 1;
    let mut frac: u64 = 0;
    let mut kept: usize = 0;
    while j < end
        invariant
            end <= text@.len(),
            n == text@.take(end as int),
            n == number_part(text@),
            n.len() == end,
            0 < i < end,
            n[i as int] == '.',
            !all_digits(n),
            forall|p: int| point_at(n, p) ==> p == i,
            f == n.skip(i + 1),
            i + 1 <= j <= end,
            kept <= 6,
            kept == (if j - (i + 1) < 6 { j - (i + 1) } else { 6 }),
            all_digits(f.take(j - (i + 1))),
            frac as nat == digits_value(f.take(kept as int)),
            frac < pow10(kept as nat),
        decreases end - j,
    {
        let c = text.get_char(j);
        assert(f[j - (i + 1)] == c);
        match digit_of(c) {
            None => {
                proof {
                    assert(!is_digit(f[j - (i + 1)]));
                    assert(!all_digits(f));
                    assert(!point_at(n, i as int));
                    assert(decimal_micros(n) is None);
                }
                return None;
            },
            Some(d) => {
                proof {
                    lemma_pow10_small(kept as nat);
                    assert forall|k: int| 0 <= k < j + 1 - (i + 1) implies is_digit(
                        #[trigger] f.take(j + 1 - (i + 1))[k],
                    ) by {
                        if k < j - (i + 1) {
                            assert(f.take(j + 1 - (i + 1))[k] == f.take(j - (i + 1))[k]);
                        }
                    }
                }
                if kept < 6 {
                    proof {
                        assert(f.take(kept + 1).drop_last() =~= f.take(kept as int));
                    }
                    frac = frac * 10 + d;
                    kept += 1;
                }
                j += 1;
            },
        }
    }
    proof {
        assert(f.take(f.len() as int) =~= f);
        assert(point_at(n, i as int));
    }
    proof {
        assert(pow10(0) == 1);
        assert(frac * pow10(0) == frac);
    }
    let mut scaled: u64 = frac;
    let mut k: usize = kept;
    while k < 6
        invariant
            kept <= k <= 6,
            scaled as nat == frac * pow10((k - kept) as nat),
            scaled < pow10(k as nat),
        decreases 6 - k,
    {
        proof {
            lemma_pow10_small(k as nat);
            lemma_pow10_small((k - kept) as nat);
        }
        let ghost before = scaled;
        scaled = scaled * 10;
        k += 1;
        proof {
            let e = pow10((k - 1 - kept) as nat);
            assert(pow10((k - kept) as nat) == 10 * e);
            assert(before == frac * e);
            assert(scaled == frac * (10 * e)) by (nonlinear_arith)
                requires
                    scaled == before * 10,
                    before == frac * e,
            ;
        }
    }
    proof {
        lemma_pow10_small(6);
    }
    let whole_micros = whole * MICROS_PER_MM;
    if scaled > u64::MAX - whole_micros {
        None
    } else {
        Some(whole_micros + scaled)
    }
}

} // verus!
