//! Numeral matching and parsing: the shared decimal scanner of the buffer
//! and line-oriented engines, and verified base-10 / base-16 conversion.

use vstd::prelude::*;
use crate::chars::ascii_digit;
use crate::chars::char_at;

verus! {

/// Whether every character of `s` is an ASCII decimal digit.
pub open spec fn all_digits(s: Seq<char>) -> bool {
    forall|j: int| 0 <= j < s.len() ==> ascii_digit(s[j])
}

/// The base-10 value of a digit sequence.
pub open spec fn dec_val(s: Seq<char>) -> int
    decreases s.len()
{
    if s.len() == 0 {
        0
    } else {
        10 * dec_val(s.drop_last()) + (s.last() as u32 - 48)
    }
}

pub proof fn lemma_dec_val_nonneg(s: Seq<char>)
    requires
        all_digits(s),
    ensures
        dec_val(s) >= 0,
    decreases s.len(),
{
    if s.len() > 0 {
        assert(all_digits(s.drop_last()));
        lemma_dec_val_nonneg(s.drop_last());
    }
}

/// Extending a digit sequence can only increase its value.
pub proof fn lemma_dec_val_prefix(s: Seq<char>, i: int)
    requires
        all_digits(s),
        0 <= i <= s.len(),
    ensures
        dec_val(s.take(i)) <= dec_val(s),
    decreases s.len() - i,
{
    if i < s.len() {
        lemma_dec_val_prefix(s, i + 1);
        assert forall|j: int| 0 <= j < s.take(i).len() implies ascii_digit(s.take(i)[j]) by {
            assert(s.take(i)[j] == s[j]);
        }
        lemma_dec_val_nonneg(s.take(i));
        assert(s.take(i + 1).drop_last() =~= s.take(i));
        assert(s.take(i + 1).last() == s[i]);
        assert(dec_val(s.take(i + 1)) == 10 * dec_val(s.take(i)) + (s[i] as u32 - 48));
        assert(ascii_digit(s[i]));
    } else {
        assert(s.take(i) =~= s);
    }
}

/// Where the numeral starting at `i` ends.  The scan accepts digits and at
/// most one `.`; it fails (result `-1`) on a second `.` or when no digit
/// was seen before the run stops.
pub open spec fn num_end(s: Seq<char>, i: int, point: bool, dig: bool) -> int
    decreases s.len() - i when 0 <= i <= s.len()
{
    if i >= s.len() {
        if dig {
            i
        } else {
            -1
        }
    } else if ascii_digit(s[i]) {
        num_end(s, i + 1, point, true)
    } else if s[i] == '.' && !point {
        num_end(s, i + 1, true, dig)
    } else if s[i] == '.' {
        -1
    } else {
        if dig {
            i
        } else {
            -1
        }
    }
}

pub proof fn lemma_num_end_bounds(s: Seq<char>, i: int, point: bool, dig: bool)
    requires
        0 <= i <= s.len(),
    ensures
        num_end(s, i, point, dig) == -1 || (i <= num_end(s, i, point, dig) <= s.len() && (dig
            || num_end(s, i, point, dig) > i)),
    decreases s.len() - i,
{
    if i < s.len() {
        if ascii_digit(s[i]) {
            lemma_num_end_bounds(s, i + 1, point, true);
        } else if s[i] == '.' && !point {
            lemma_num_end_bounds(s, i + 1, true, dig);
        }
    }
}

/// A pure digit run carries a successful numeral scan through to its end.
pub proof fn lemma_num_end_digits(s: Seq<char>, i: int, point: bool, dig: bool)
    requires
        0 <= i <= s.len(),
        forall|j: int| i <= j < s.len() ==> ascii_digit(#[trigger] s[j]),
        dig || i < s.len(),
    ensures
        num_end(s, i, point, dig) == s.len(),
    decreases s.len() - i,
{
    if i < s.len() {
        lemma_num_end_digits(s, i + 1, point, true);
    }
}

/// A digit run in the middle of a numeral scan is consumed without a change
/// of outcome: scanning on from `j` gives the same end, with a digit seen
/// whenever the run is non-empty.
pub proof fn lemma_num_end_digit_run(s: Seq<char>, i: int, j: int, point: bool, dig: bool)
    requires
        0 <= i <= j <= s.len(),
        forall|t: int| i <= t < j ==> ascii_digit(#[trigger] s[t]),
    ensures
        num_end(s, i, point, dig) == num_end(s, j, point, dig || j > i),
    decreases j - i,
{
    if i < j {
        lemma_num_end_digit_run(s, i + 1, j, point, true);
    }
}

/// Parses `s[from..to)` as a base-10 `i64`.  The digits are given; the
/// result is `None` exactly when the value does not fit.
pub(crate) fn parse_dec(s: &str, from: usize, to: usize) -> (r: Option<i64>)
    requires
        0 <= from <= to <= s@.len(),
        all_digits(s@.subrange(from as int, to as int)),
    ensures
        r is Some <==> dec_val(s@.subrange(from as int, to as int)) <= i64::MAX,
        r is Some ==> r->0 as int == dec_val(s@.subrange(from as int, to as int)),
{
    let ghost whole = s@.subrange(from as int, to as int);
    proof {
        lemma_dec_val_nonneg(whole);
    }
    let mut val: i64 = 0;
    let mut j: usize = from;
    while j < to
        invariant
            from <= j <= to <= s@.len(),
            all_digits(whole),
            whole == s@.subrange(from as int, to as int),
            0 <= val,
            val as int == dec_val(whole.take(j - from)),
        decreases to - j,
    {
        let c = char_at(s, j);
        assert(c == whole[j - from]);
        assert(ascii_digit(c));
        let d: i64 = (c as u32 - 48) as i64;
        assert(0 <= d <= 9);
        if val > (i64::MAX - d) / 10 {
            proof {
                assert(val * 10 + d > i64::MAX) by (nonlinear_arith)
                    requires
                        val > (i64::MAX - d) / 10,
                        0 <= d <= 9,
                        0 <= val,
                ;
                assert(whole.take(j - from + 1).drop_last() =~= whole.take(j - from));
                assert(dec_val(whole.take(j - from + 1)) == 10 * dec_val(whole.take(j - from))
                    + (whole[j - from] as u32 - 48));
                lemma_dec_val_prefix(whole, j - from + 1);
                assert(dec_val(whole) > i64::MAX);
            }
            return None;
        }
        proof {
            assert(val * 10 + d <= i64::MAX) by (nonlinear_arith)
                requires
                    val <= (i64::MAX - d) / 10,
                    0 <= d <= 9,
                    0 <= val,
            ;
            assert(whole.take(j - from + 1).drop_last() =~= whole.take(j - from));
        }
        val = val * 10 + d;
        j = j + 1;
    }
    proof {
        assert(whole.take(to - from) =~= whole);
    }
    Some(val)
}

/// The value of an ASCII hexadecimal digit, or 16 for other characters.
pub open spec fn hex_digit_val(c: char) -> int {
    if ascii_digit(c) {
        c as u32 - 48
    } else if 65 <= c as u32 && c as u32 <= 70 {
        c as u32 - 55
    } else if 97 <= c as u32 && c as u32 <= 102 {
        c as u32 - 87
    } else {
        16
    }
}

/// Whether `c` is an ASCII hexadecimal digit.
pub open spec fn hex_digit(c: char) -> bool {
    hex_digit_val(c) < 16
}

/// Whether every character of `s` is an ASCII hexadecimal digit.
pub open spec fn all_hex_digits(s: Seq<char>) -> bool {
    forall|j: int| 0 <= j < s.len() ==> hex_digit(s[j])
}

/// The base-16 value of a hexadecimal digit sequence.
pub open spec fn hex_val(s: Seq<char>) -> int
    decreases s.len()
{
    if s.len() == 0 {
        0
    } else {
        16 * hex_val(s.drop_last()) + hex_digit_val(s.last())
    }
}

pub proof fn lemma_hex_val_nonneg(s: Seq<char>)
    requires
        all_hex_digits(s),
    ensures
        hex_val(s) >= 0,
    decreases s.len(),
{
    if s.len() > 0 {
        assert(all_hex_digits(s.drop_last()));
        lemma_hex_val_nonneg(s.drop_last());
    }
}

pub proof fn lemma_hex_val_prefix(s: Seq<char>, i: int)
    requires
        all_hex_digits(s),
        0 <= i <= s.len(),
    ensures
        hex_val(s.take(i)) <= hex_val(s),
    decreases s.len() - i,
{
    if i < s.len() {
        lemma_hex_val_prefix(s, i + 1);
        assert forall|j: int| 0 <= j < s.take(i).len() implies hex_digit(s.take(i)[j]) by {
            assert(s.take(i)[j] == s[j]);
        }
        lemma_hex_val_nonneg(s.take(i));
        assert(s.take(i + 1).drop_last() =~= s.take(i));
        assert(s.take(i + 1).last() == s[i]);
        assert(hex_val(s.take(i + 1)) == 16 * hex_val(s.take(i)) + hex_digit_val(s[i]));
        assert(hex_digit(s[i]));
        assert(hex_digit_val(s[i]) >= 0);
    } else {
        assert(s.take(i) =~= s);
    }
}

/// Decides `hex_digit` without leaving the library.
pub(crate) fn is_hex_digit(c: char) -> (r: bool)
    ensures
        r == hex_digit(c),
{
    let u: u32 = c as u32;
    (48 <= u && u <= 57) || (65 <= u && u <= 70) || (97 <= u && u <= 102)
}

/// Parses `s[from..to)` as a base-16 `u64`.  The hex digits are given; the
/// result is `None` exactly when the value does not fit.
pub(crate) fn parse_hex(s: &str, from: usize, to: usize) -> (r: Option<u64>)
    requires
        0 <= from <= to <= s@.len(),
        all_hex_digits(s@.subrange(from as int, to as int)),
    ensures
        r is Some <==> hex_val(s@.subrange(from as int, to as int)) <= u64::MAX,
        r is Some ==> r->0 as int == hex_val(s@.subrange(from as int, to as int)),
{
    let ghost whole = s@.subrange(from as int, to as int);
    proof {
        lemma_hex_val_nonneg(whole);
    }
    let mut val: u64 = 0;
    let mut j: usize = from;
    while j < to
        invariant
            from <= j <= to <= s@.len(),
            all_hex_digits(whole),
            whole == s@.subrange(from as int, to as int),
            val as int == hex_val(whole.take(j - from)),
        decreases to - j,
    {
        let c = char_at(s, j);
        assert(c == whole[j - from]);
        assert(hex_digit(c));
        let u: u32 = c as u32;
        let d: u64 = if 48 <= u && u <= 57 {
            (u - 48) as u64
        } else if 65 <= u && u <= 70 {
            (u - 55) as u64
        } else {
            (u - 87) as u64
        };
        assert(d as int == hex_digit_val(c));
        assert(0 <= d <= 15);
        if val > (u64::MAX - d) / 16 {
            proof {
                assert(val * 16 + d > u64::MAX) by (nonlinear_arith)
                    requires
                        val > (u64::MAX - d) / 16,
                        0 <= d <= 15,
                        0 <= val,
                ;
                assert(whole.take(j - from + 1).drop_last() =~= whole.take(j - from));
                assert(hex_val(whole.take(j - from + 1)) == 16 * hex_val(whole.take(j - from))
                    + hex_digit_val(whole[j - from]));
                lemma_hex_val_prefix(whole, j - from + 1);
                assert(hex_val(whole) > u64::MAX);
            }
            return None;
        }
        proof {
            assert(val * 16 + d <= u64::MAX) by (nonlinear_arith)
                requires
                    val <= (u64::MAX - d) / 16,
                    0 <= d <= 15,
                    0 <= val,
            ;
            assert(whole.take(j - from + 1).drop_last() =~= whole.take(j - from));
        }
        val = val * 16 + d;
        j = j + 1;
    }
    proof {
        assert(whole.take(to - from) =~= whole);
    }
    Some(val)
}

} // verus!
