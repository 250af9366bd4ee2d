//! Character classification and sequence-scanning helpers shared by all
//! scanning engines.
//!
//! The Unicode character classes (alphabetic, alphanumeric, whitespace) are
//! decided by the standard library; they are named here by uninterpreted
//! spec functions, pinned down on the ASCII range where their membership is
//! documented exactly.

use vstd::prelude::*;

verus! {

/// The Unicode `Alphabetic` property of a character beyond ASCII, as decided
/// by `char::is_alphabetic`.
pub uninterp spec fn unicode_alpha(c: char) -> bool;

/// Unicode alphanumeric-ness of a character beyond ASCII, as decided by
/// `char::is_alphanumeric`.
pub uninterp spec fn unicode_alnum(c: char) -> bool;

/// The Unicode `White_Space` property of a character beyond ASCII, as
/// decided by `char::is_whitespace`.
pub uninterp spec fn unicode_white(c: char) -> bool;

/// The ASCII decimal digits `0`-`9`.
pub open spec fn ascii_digit(c: char) -> bool {
    48 <= c as u32 && c as u32 <= 57
}

/// The ASCII letters `A`-`Z` and `a`-`z`.
pub open spec fn ascii_alpha(c: char) -> bool {
    (65 <= c as u32 && c as u32 <= 90) || (97 <= c as u32 && c as u32 <= 122)
}

/// The ASCII whitespace characters: TAB, LF, VT, FF, CR and space.
pub open spec fn ascii_white(c: char) -> bool {
    (9 <= c as u32 && c as u32 <= 13) || c as u32 == 32
}

/// An alphabetic character: within ASCII exactly the letters, beyond it the
/// Unicode `Alphabetic` property.
pub open spec fn alpha_char(c: char) -> bool {
    if (c as u32) < 128 {
        ascii_alpha(c)
    } else {
        unicode_alpha(c)
    }
}

/// An alphanumeric character: within ASCII exactly the letters and decimal
/// digits, beyond it Unicode alphanumeric-ness.
pub open spec fn alnum_char(c: char) -> bool {
    if (c as u32) < 128 {
        ascii_alpha(c) || ascii_digit(c)
    } else {
        unicode_alnum(c)
    }
}

/// A whitespace character: within ASCII exactly TAB, LF, VT, FF, CR and
/// space, beyond it the Unicode `White_Space` property.
pub open spec fn white_char(c: char) -> bool {
    if (c as u32) < 128 {
        ascii_white(c)
    } else {
        unicode_white(c)
    }
}

/// Relies on `char::is_alphabetic`: true exactly for characters with the
/// Unicode `Alphabetic` property, whose ASCII members are the letters
/// `A`-`Z` and `a`-`z`; the result depends on the character alone.
#[verifier::external_body]
pub(crate) fn is_alpha(c: char) -> (r: bool)
    ensures
        r == alpha_char(c),
        (c as u32) >= 128 ==> r == unicode_alpha(c),
{
    c.is_alphabetic()
}

/// Relies on `char::is_alphanumeric`: true exactly for alphabetic characters
/// and characters in the Unicode number categories, whose ASCII members are
/// the letters and the decimal digits; the result depends on the character
/// alone.
#[verifier::external_body]
pub(crate) fn is_alnum(c: char) -> (r: bool)
    ensures
        r == alnum_char(c),
        (c as u32) >= 128 ==> r == unicode_alnum(c),
        alpha_char(c) ==> r,
{
    c.is_alphanumeric()
}

/// Relies on `char::is_whitespace`: true exactly for characters with the
/// Unicode `White_Space` property, whose ASCII members are TAB, LF, VT, FF,
/// CR and space; the result depends on the character alone.
#[verifier::external_body]
pub(crate) fn is_white(c: char) -> (r: bool)
    ensures
        r == white_char(c),
        (c as u32) >= 128 ==> r == unicode_white(c),
{
    c.is_whitespace()
}

/// Decides `ascii_digit` without leaving the library.
pub(crate) fn is_digit(c: char) -> (r: bool)
    ensures
        r == ascii_digit(c),
{
    let u: u32 = c as u32;
    48 <= u && u <= 57
}

/// The character at char-index `i` of `s`.
pub(crate) fn char_at(s: &str, i: usize) -> (c: char)
    requires
        i < s@.len(),
    ensures
        c == s@[i as int],
{
    s.get_char(i)
}

/// The end of the run of characters satisfying `f` that starts at `i`.
pub open spec fn run_end(s: Seq<char>, i: int, f: spec_fn(char) -> bool) -> int
    decreases s.len() - i when 0 <= i <= s.len()
{
    if i >= s.len() {
        i
    } else if f(s[i]) {
        run_end(s, i + 1, f)
    } else {
        i
    }
}

pub proof fn lemma_run_end(s: Seq<char>, i: int, f: spec_fn(char) -> bool)
    requires
        0 <= i <= s.len(),
    ensures
        i <= run_end(s, i, f) <= s.len(),
        forall|j: int| i <= j < run_end(s, i, f) ==> f(s[j]),
        run_end(s, i, f) < s.len() ==> !f(s[run_end(s, i, f)]),
    decreases s.len() - i,
{
    if i < s.len() && f(s[i]) {
        lemma_run_end(s, i + 1, f);
    }
}

/// The number of newline characters in `s[a..b)`.
pub open spec fn count_nl(s: Seq<char>, a: int, b: int) -> int
    decreases b - a when a <= b
{
    if a >= b {
        0
    } else {
        count_nl(s, a, b - 1) + if s[b - 1] == '\n' {
            1int
        } else {
            0int
        }
    }
}

/// The start of the line that position `b` is on, after scanning `s[a..b)`
/// from a state where the current line began at `ls0`: one past the last
/// newline in the scanned range, or `ls0` if it holds none.
pub open spec fn line_start_after(s: Seq<char>, a: int, b: int, ls0: int) -> int
    decreases b - a when a <= b
{
    if a >= b {
        ls0
    } else if s[b - 1] == '\n' {
        b
    } else {
        line_start_after(s, a, b - 1, ls0)
    }
}

pub proof fn lemma_nl_bounds(s: Seq<char>, a: int, b: int, ls0: int)
    requires
        a <= b,
        ls0 <= a,
    ensures
        0 <= count_nl(s, a, b) <= b - a,
        ls0 <= line_start_after(s, a, b, ls0) <= b,
    decreases b - a,
{
    if a < b {
        lemma_nl_bounds(s, a, b - 1, ls0);
    }
}

/// Together with the invariants `ls0 <= a` and `line0 <= ls0 + 1`, the
/// line counter can never run more than one ahead of the line start.
pub proof fn lemma_nl_line_rel(s: Seq<char>, a: int, b: int, line0: int, ls0: int)
    requires
        a <= b,
        ls0 <= a,
        line0 <= ls0 + 1,
    ensures
        line0 + count_nl(s, a, b) <= line_start_after(s, a, b, ls0) + 1,
    decreases b - a,
{
    if a < b {
        lemma_nl_line_rel(s, a, b - 1, line0, ls0);
        lemma_nl_bounds(s, a, b - 1, ls0);
    }
}

/// The first position at or after `i` holding character `c`, or `-1`.
pub open spec fn find_char_from(s: Seq<char>, i: int, c: char) -> int
    decreases s.len() - i when 0 <= i <= s.len()
{
    if i >= s.len() {
        -1
    } else if s[i] == c {
        i
    } else {
        find_char_from(s, i + 1, c)
    }
}

pub proof fn lemma_find_char_from(s: Seq<char>, i: int, c: char)
    requires
        0 <= i <= s.len(),
    ensures
        ({
            let f = find_char_from(s, i, c);
            &&& (f == -1 ==> forall|j: int| i <= j < s.len() ==> s[j] != c)
            &&& (f >= 0 ==> i <= f < s.len() && s[f] == c && (forall|j: int|
                i <= j < f ==> s[j] != c))
        }),
    decreases s.len() - i,
{
    if i < s.len() && s[i] != c {
        lemma_find_char_from(s, i + 1, c);
    }
}

/// The first position at or after `i` where `pat` occurs in `s`, or `-1`.
pub open spec fn find_sub_from(s: Seq<char>, i: int, pat: Seq<char>) -> int
    decreases s.len() - i when 0 <= i <= s.len()
{
    if pat.len() == 0 {
        i
    } else if i + pat.len() > s.len() {
        -1
    } else if s.subrange(i, i + pat.len()) == pat {
        i
    } else {
        find_sub_from(s, i + 1, pat)
    }
}

pub proof fn lemma_find_sub_from(s: Seq<char>, i: int, pat: Seq<char>)
    requires
        0 <= i <= s.len(),
    ensures
        ({
            let f = find_sub_from(s, i, pat);
            &&& (f == -1 ==> forall|j: int| i <= j ==> !occurs_at(s, pat, j))
            &&& (f >= 0 ==> i <= f && f + pat.len() <= s.len() && occurs_at(s, pat, f) && (
            forall|j: int| i <= j < f ==> !occurs_at(s, pat, j)))
        }),
    decreases s.len() - i,
{
    let f = find_sub_from(s, i, pat);
    if pat.len() == 0 {
        assert(s.subrange(i, i) =~= pat);
    } else if i + pat.len() > s.len() {
        assert forall|j: int| i <= j implies !occurs_at(s, pat, j) by {}
    } else if s.subrange(i, i + pat.len()) == pat {
    } else {
        lemma_find_sub_from(s, i + 1, pat);
        assert(!occurs_at(s, pat, i));
    }
}

/// The position where the trailing whitespace of `s[..e)` begins.
pub open spec fn trim_end_pos(s: Seq<char>, e: int) -> int
    decreases e when 0 <= e <= s.len()
{
    if e <= 0 {
        0
    } else if white_char(s[e - 1]) {
        trim_end_pos(s, e - 1)
    } else {
        e
    }
}

pub proof fn lemma_trim_end_lb(s: Seq<char>, k: int, a: int)
    requires
        0 <= a < k <= s.len(),
        !white_char(s[a]),
    ensures
        trim_end_pos(s, k) >= a + 1,
    decreases k,
{
    if k - 1 > a && white_char(s[k - 1]) {
        lemma_trim_end_lb(s, k - 1, a);
    }
}

/// Whether every character of `s[a..b)` is whitespace.
pub open spec fn all_white(s: Seq<char>, a: int, b: int) -> bool {
    forall|j: int| a <= j < b ==> white_char(s[j])
}

/// Whether `pat` occurs in `s` starting at position `i`.
pub open spec fn occurs_at(s: Seq<char>, pat: Seq<char>, i: int) -> bool {
    0 <= i && i + pat.len() <= s.len() && s.subrange(i, i + pat.len()) == pat
}

/// The end of the whitespace run starting at `i`.
pub open spec fn white_end(s: Seq<char>, i: int) -> int {
    run_end(s, i, |c: char| white_char(c))
}

/// The end of the non-whitespace run starting at `i`.
pub open spec fn nonwhite_end(s: Seq<char>, i: int) -> int {
    run_end(s, i, |c: char| !white_char(c))
}

pub proof fn lemma_white_end(s: Seq<char>, i: int)
    requires
        0 <= i <= s.len(),
    ensures
        i <= white_end(s, i) <= s.len(),
        all_white(s, i, white_end(s, i)),
        white_end(s, i) < s.len() ==> !white_char(s[white_end(s, i)]),
{
    lemma_run_end(s, i, |c: char| white_char(c));
}

pub proof fn lemma_nonwhite_end(s: Seq<char>, i: int)
    requires
        0 <= i <= s.len(),
    ensures
        i <= nonwhite_end(s, i) <= s.len(),
        forall|j: int| i <= j < nonwhite_end(s, i) ==> !white_char(s[j]),
        nonwhite_end(s, i) < s.len() ==> white_char(s[nonwhite_end(s, i)]),
        i < s.len() && !white_char(s[i]) ==> nonwhite_end(s, i) > i,
{
    lemma_run_end(s, i, |c: char| !white_char(c));
    if i < s.len() && !white_char(s[i]) {
        assert(nonwhite_end(s, i) == run_end(s, i + 1, |c: char| !white_char(c)));
        lemma_run_end(s, i + 1, |c: char| !white_char(c));
    }
}

/// The maximal whitespace-separated pieces of `s`, from position `i` on.
pub open spec fn ws_pieces(s: Seq<char>, i: int) -> Seq<Seq<char>>
    decreases s.len() - i when 0 <= i <= s.len() via ws_pieces_decreases
{
    let a = white_end(s, i);
    if a >= s.len() {
        Seq::empty()
    } else {
        let b = nonwhite_end(s, a);
        seq![s.subrange(a, b)] + ws_pieces(s, b)
    }
}

#[via_fn]
proof fn ws_pieces_decreases(s: Seq<char>, i: int) {
    let a = white_end(s, i);
    lemma_white_end(s, i);
    if a < s.len() {
        lemma_nonwhite_end(s, a);
    }
}

} // verus!
