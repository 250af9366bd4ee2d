//! The zero-copy buffer scanner: it is bound to a borrowed text buffer and
//! produces `(token, line, column)` triples whose textual payloads are
//! slices of that buffer.  It recognizes configurable double- and
//! single-character symbols, hex/decimal/float numerals, char literals and
//! multi-line string literals and comments, and reports unterminated
//! constructs and unrecognized input as explicit [`RawToken::LexError`]
//! tokens with the position pinned to the end of the input.
//!
//! The behaviour of [`StrTokenizer::next_token`] is pinned down by the spec
//! function [`spec_zc_next`] over the scanner's view [`ZcView`].

use vstd::prelude::*;
use vstd::string::StrSliceExecFns;
use crate::chars::ascii_digit;
use crate::chars::ascii_alpha;
use crate::chars::white_char;
use crate::chars::run_end;
use crate::chars::lemma_run_end;
use crate::chars::count_nl;
use crate::chars::line_start_after;
use crate::chars::lemma_nl_bounds;
use crate::chars::lemma_nl_line_rel;
use crate::chars::find_char_from;
use crate::chars::lemma_find_char_from;
use crate::chars::find_sub_from;
use crate::chars::lemma_find_sub_from;
use crate::chars::occurs_at;
use crate::chars::ws_pieces;
use crate::chars::is_white;
use crate::chars::is_digit;
use crate::chars::char_at;
use crate::numerals::hex_digit;
use crate::numerals::hex_val;
use crate::numerals::dec_val;
use crate::numerals::is_hex_digit;
use crate::numerals::parse_dec;
use crate::numerals::parse_hex;
use crate::chars::white_end;
use crate::chars::lemma_white_end;
use crate::chars::nonwhite_end;
use crate::chars::trim_end_pos;
use crate::chars::lemma_nonwhite_end;

verus! {

/// Tokens produced by [`StrTokenizer`].  Textual payloads are slices of the
/// bound input buffer.
#[derive(Debug, Clone, PartialEq)]
pub enum RawToken<'t> {
    /// An unsigned integer, captured for convenience as a signed number.
    /// Both decimal numerals and hexadecimal numerals prefixed by `0x` are
    /// recognized; a hexadecimal value is parsed as unsigned and stored as
    /// signed 64-bit.
    Num(i64),
    /// A floating-point numeral, carried as its literal text (it always
    /// holds a `.` and at least one digit after it).
    Float(&'t str),
    /// A single character inside single quotes.
    Char(char),
    /// A string literal including the enclosing quotes; it may span lines.
    Strlit(&'t str),
    /// An alphanumeric sequence starting with a letter or `_`.
    Alphanum(&'t str),
    /// A non-alphanumeric symbol: a registered double or single, or a run
    /// of symbol characters.
    Symbol(&'t str),
    /// A newline, returned only when `keep_newline` is set.
    Newline,
    /// The number of consecutive whitespace characters skipped, returned
    /// only when `keep_whitespace` is set.
    Whitespace(usize),
    /// Verbatim text, used for comments when `keep_comment` is set.
    Verbatim(&'t str),
    /// A scanning error: an unterminated literal or comment, numeral
    /// overflow, or unrecognized input.
    LexError,
}

/// The mathematical view of a [`RawToken`].
pub enum RawView {
    Num(int),
    Fl(Seq<char>),
    Ch(char),
    Strlit(Seq<char>),
    Alpha(Seq<char>),
    Sym(Seq<char>),
    NL,
    White(int),
    Verb(Seq<char>),
    ErrTok,
}

impl<'t> View for RawToken<'t> {
    type V = RawView;

    open spec fn view(&self) -> RawView {
        match self {
            RawToken::Num(v) => RawView::Num(*v as int),
            RawToken::Float(t) => RawView::Fl(t@),
            RawToken::Char(c) => RawView::Ch(*c),
            RawToken::Strlit(t) => RawView::Strlit(t@),
            RawToken::Alphanum(t) => RawView::Alpha(t@),
            RawToken::Symbol(t) => RawView::Sym(t@),
            RawToken::Newline => RawView::NL,
            RawToken::Whitespace(n) => RawView::White(*n as int),
            RawToken::Verbatim(t) => RawView::Verb(t@),
            RawToken::LexError => RawView::ErrTok,
        }
    }
}

/// The view of a [`StrTokenizer`]: its whole configuration and position
/// state over mathematical types.
pub struct ZcView {
    pub doubles: Seq<(char, char)>,
    pub singles: Seq<char>,
    pub input: Seq<char>,
    pub position: int,
    pub keep_whitespace: bool,
    pub keep_newline: bool,
    pub line: int,
    pub line_comment: Seq<char>,
    pub cms: Seq<char>,
    pub cme: Seq<char>,
    pub keep_comment: bool,
    pub line_start: int,
}

/// Well-formedness of a scanner view: the position lies in the input, the
/// line bookkeeping is consistent, and the multi-line comment markers are
/// both set or both disabled.
pub open spec fn view_wf(v: ZcView) -> bool {
    &&& 0 <= v.line_start <= v.position <= v.input.len()
    &&& v.input.len() < usize::MAX
    &&& 1 <= v.line
    &&& v.line <= v.line_start + 1
    &&& (v.cms.len() == 0) == (v.cme.len() == 0)
}

/// A character that may continue an identifier: an ASCII letter, digit or `_`.
pub open spec fn ident_char(c: char) -> bool {
    ascii_alpha(c) || ascii_digit(c) || c == '_'
}

/// The non-alphanumeric characters that group into one Symbol run:
/// `! @ # $ % ^ & * ? - + / . , < > = ~ ` ' ; : | \`.
pub open spec fn zc_sym_char(c: char) -> bool {
    c == '!' || c == '@' || c == '#' || c == '$' || c == '%' || c == '^' || c == '&' || c == '*'
        || c == '?' || c == '-' || c == '+' || c == '/' || c == '.' || c == ',' || c == '<' || c
        == '>' || c == '=' || c == '~' || c == '`' || c == '\'' || c == ';' || c == ':' || c == '|'
        || c == '\\'
}

/// The end of the decimal-digit run starting at `i`.
pub open spec fn digit_end(s: Seq<char>, i: int) -> int {
    run_end(s, i, |c: char| ascii_digit(c))
}

/// The end of the hexadecimal-digit run starting at `i`.
pub open spec fn hex_end(s: Seq<char>, i: int) -> int {
    run_end(s, i, |c: char| hex_digit(c))
}

/// The end of the identifier-character run starting at `i`.
pub open spec fn ident_end(s: Seq<char>, i: int) -> int {
    run_end(s, i, |c: char| ident_char(c))
}

/// The end of the symbol-character run starting at `i`.
pub open spec fn zc_sym_end(s: Seq<char>, i: int) -> int {
    run_end(s, i, |c: char| zc_sym_char(c))
}

/// Where the float rule matches from `i`: optional digits, a `.`, then at
/// least one digit; `-1` when it does not match.
pub open spec fn float_match_end(s: Seq<char>, i: int) -> int {
    let d1 = digit_end(s, i);
    if d1 < s.len() && s[d1] == '.' && d1 + 1 < s.len() && ascii_digit(s[d1 + 1]) {
        digit_end(s, d1 + 1)
    } else {
        -1
    }
}

/// Where a zero-copy string literal whose body starts at `i` ends: one past
/// the closing quote, or `-1` when unterminated.  A backslash skips the
/// character after it unconditionally.
pub open spec fn zc_str_end(s: Seq<char>, i: int) -> int
    decreases s.len() - i when 0 <= i <= s.len()
{
    if i >= s.len() {
        -1
    } else if s[i] == '"' {
        i + 1
    } else if s[i] == '\\' {
        if i + 2 <= s.len() {
            zc_str_end(s, i + 2)
        } else {
            -1
        }
    } else {
        zc_str_end(s, i + 1)
    }
}

pub proof fn lemma_zc_str_end_bounds(s: Seq<char>, i: int)
    requires
        0 <= i <= s.len(),
    ensures
        zc_str_end(s, i) == -1 || i < zc_str_end(s, i) <= s.len(),
    decreases s.len() - i,
{
    if i < s.len() {
        if s[i] == '"' {
        } else if s[i] == '\\' {
            if i + 2 <= s.len() {
                lemma_zc_str_end_bounds(s, i + 2);
            }
        } else {
            lemma_zc_str_end_bounds(s, i + 1);
        }
    }
}

/// The interpretation of a `u64` as a signed 64-bit value.
pub open spec fn u64_to_i64(v: int) -> int {
    if v <= i64::MAX {
        v
    } else {
        v - 0x10000000000000000
    }
}

/// Converts an unsigned 64-bit value to the signed value with the same bit
/// pattern, by plain arithmetic.
pub(crate) fn to_signed(v: u64) -> (r: i64)
    ensures
        r as int == u64_to_i64(v as int),
{
    if v <= 0x7fff_ffff_ffff_ffff {
        v as i64
    } else {
        let d = v - 0x8000000000000000u64;
        i64::MIN + (d as i64)
    }
}

/// A view update that moves the scanning position and line bookkeeping.
pub open spec fn zc_at(v: ZcView, p: int, line: int, ls: int) -> ZcView {
    ZcView { position: p, line: line, line_start: ls, ..v }
}

} // verus!

verus! {

/// One call of the zero-copy scanner on view `v`: the `(token, line,
/// column)` triple produced (`None` at end of input) and the state
/// afterwards.  The rules are tried in fixed precedence order: whitespace
/// and newlines, line comment, multi-line comment, double symbols, single
/// symbols, char literal, string literal, hexadecimal numeral, identifier,
/// float, decimal integer, symbol run, and otherwise a lexical error.
pub open spec fn spec_zc_next(v: ZcView) -> (Option<(RawView, int, int)>, ZcView)
    decreases v.input.len() - v.position when view_wf(v) via spec_zc_next_decreases
{
    let s = v.input;
    let pi = v.position;
    let col = pi - v.line_start + 1;
    if pi >= s.len() {
        (None, v)
    } else {
        let w = white_end(s, pi);
        let fnl = find_char_from(s, pi, '\n');
        if v.keep_newline && 0 <= fnl && fnl < w {
            (
                Some((RawView::NL, v.line, fnl - v.line_start + 1)),
                zc_at(v, fnl + 1, v.line + 1, fnl + 1),
            )
        } else if w > pi {
            let line2 = v.line + count_nl(s, pi, w);
            let ls2 = line_start_after(s, pi, w, v.line_start);
            if v.keep_whitespace {
                (Some((RawView::White(w - pi), v.line, col)), zc_at(v, w, line2, ls2))
            } else {
                spec_zc_next(zc_at(v, w, line2, ls2))
            }
        } else if v.line_comment.len() > 0 && occurs_at(s, v.line_comment, pi) {
            let nlpos = find_char_from(s, pi + v.line_comment.len() as int, '\n');
            if nlpos >= 0 {
                let v2 = zc_at(v, nlpos, v.line, v.line_start);
                if v.keep_comment {
                    (Some((RawView::Verb(s.subrange(pi, nlpos)), v.line, col)), v2)
                } else {
                    spec_zc_next(v2)
                }
            } else {
                let v2 = zc_at(v, s.len() as int, v.line, v.line_start);
                if v.keep_comment {
                    (Some((RawView::Verb(s.subrange(pi, s.len() as int)), v.line, col)), v2)
                } else {
                    (None, v2)
                }
            }
        } else if v.cms.len() > 0 && occurs_at(s, v.cms, pi) {
            let endpos = find_sub_from(s, pi + v.cms.len() as int, v.cme);
            if endpos >= 0 {
                let np = endpos + v.cme.len() as int;
                let v2 = zc_at(
                    v,
                    np,
                    v.line + count_nl(s, pi, np),
                    line_start_after(s, pi, np, v.line_start),
                );
                if v.keep_comment {
                    (Some((RawView::Verb(s.subrange(pi, np)), v.line, col)), v2)
                } else {
                    spec_zc_next(v2)
                }
            } else {
                (
                    Some((RawView::ErrTok, v.line, col)),
                    zc_at(v, s.len() as int, v.line, v.line_start),
                )
            }
        } else if pi + 1 < s.len() && v.doubles.contains((s[pi], s[pi + 1])) {
            (
                Some((RawView::Sym(s.subrange(pi, pi + 2)), v.line, col)),
                zc_at(v, pi + 2, v.line, v.line_start),
            )
        } else if v.singles.contains(s[pi]) {
            (
                Some((RawView::Sym(s.subrange(pi, pi + 1)), v.line, col)),
                zc_at(v, pi + 1, v.line, v.line_start),
            )
        } else if s[pi] == '\'' && pi + 2 < s.len() && s[pi + 2] == '\'' {
            (Some((RawView::Ch(s[pi + 1]), v.line, col)), zc_at(v, pi + 3, v.line, v.line_start))
        } else if s[pi] == '"' {
            let e = zc_str_end(s, pi + 1);
            if e >= 0 {
                let v2 = zc_at(
                    v,
                    e,
                    v.line + count_nl(s, pi, e),
                    line_start_after(s, pi, e, v.line_start),
                );
                (Some((RawView::Strlit(s.subrange(pi, e)), v.line, col)), v2)
            } else {
                (
                    Some((RawView::ErrTok, v.line, col)),
                    zc_at(v, s.len() as int, v.line, v.line_start),
                )
            }
        } else if pi + 2 < s.len() && s[pi] == '0' && s[pi + 1] == 'x' && hex_digit(s[pi + 2]) {
            let he = hex_end(s, pi + 2);
            let hv = hex_val(s.subrange(pi + 2, he));
            if hv <= u64::MAX {
                (
                    Some((RawView::Num(u64_to_i64(hv)), v.line, col)),
                    zc_at(v, he, v.line, v.line_start),
                )
            } else {
                (
                    Some((RawView::ErrTok, v.line, col)),
                    zc_at(v, s.len() as int, v.line, v.line_start),
                )
            }
        } else if ascii_alpha(s[pi]) || s[pi] == '_' {
            let ie = ident_end(s, pi + 1);
            (
                Some((RawView::Alpha(s.subrange(pi, ie)), v.line, col)),
                zc_at(v, ie, v.line, v.line_start),
            )
        } else if float_match_end(s, pi) >= 0 {
            let fe = float_match_end(s, pi);
            (
                Some((RawView::Fl(s.subrange(pi, fe)), v.line, col)),
                zc_at(v, fe, v.line, v.line_start),
            )
        } else if ascii_digit(s[pi]) {
            let de = digit_end(s, pi);
            let dv = dec_val(s.subrange(pi, de));
            if dv <= i64::MAX {
                (Some((RawView::Num(dv), v.line, col)), zc_at(v, de, v.line, v.line_start))
            } else {
                (
                    Some((RawView::ErrTok, v.line, col)),
                    zc_at(v, s.len() as int, v.line, v.line_start),
                )
            }
        } else if zc_sym_char(s[pi]) {
            let se = zc_sym_end(s, pi);
            (
                Some((RawView::Sym(s.subrange(pi, se)), v.line, col)),
                zc_at(v, se, v.line, v.line_start),
            )
        } else {
            (
                Some((RawView::ErrTok, v.line, col)),
                zc_at(v, s.len() as int, v.line, v.line_start),
            )
        }
    }
}

#[via_fn]
proof fn spec_zc_next_decreases(v: ZcView) {
    let s = v.input;
    let pi = v.position;
    if pi < s.len() {
        lemma_white_end(s, pi);
        let w = white_end(s, pi);
        let fnl = find_char_from(s, pi, '\n');
        if !(v.keep_newline && 0 <= fnl && fnl < w) && w > pi {
            lemma_nl_bounds(s, pi, w, v.line_start);
            lemma_nl_line_rel(s, pi, w, v.line, v.line_start);
        } else if w == pi {
            if v.line_comment.len() > 0 && occurs_at(s, v.line_comment, pi) {
                lemma_find_char_from(s, pi + v.line_comment.len() as int, '\n');
            } else if v.cms.len() > 0 && occurs_at(s, v.cms, pi) {
                lemma_find_sub_from(s, pi + v.cms.len() as int, v.cme);
                let endpos = find_sub_from(s, pi + v.cms.len() as int, v.cme);
                if endpos >= 0 {
                    let np = endpos + v.cme.len() as int;
                    lemma_nl_bounds(s, pi, np, v.line_start);
                    lemma_nl_line_rel(s, pi, np, v.line, v.line_start);
                }
            }
        }
    }
}

/// The scanner's step preserves well-formedness and the configuration,
/// strictly advances when it yields a token, and is exhausted (position
/// pinned at end of input) exactly when it yields `None`.
pub proof fn lemma_zc_next_wf(v: ZcView)
    requires
        view_wf(v),
    ensures
        view_wf(spec_zc_next(v).1),
        spec_zc_next(v).1.input == v.input,
        spec_zc_next(v).1.doubles == v.doubles,
        spec_zc_next(v).1.singles == v.singles,
        spec_zc_next(v).1.line_comment == v.line_comment,
        spec_zc_next(v).1.cms == v.cms,
        spec_zc_next(v).1.cme == v.cme,
        spec_zc_next(v).1.keep_whitespace == v.keep_whitespace,
        spec_zc_next(v).1.keep_newline == v.keep_newline,
        spec_zc_next(v).1.keep_comment == v.keep_comment,
        spec_zc_next(v).0 is Some ==> v.position < spec_zc_next(v).1.position,
        spec_zc_next(v).0 is None ==> spec_zc_next(v).1.position == v.input.len(),
    decreases v.input.len() - v.position,
{
    let s = v.input;
    let pi = v.position;
    if pi < s.len() {
        lemma_white_end(s, pi);
        let w = white_end(s, pi);
        let fnl = find_char_from(s, pi, '\n');
        lemma_find_char_from(s, pi, '\n');
        if v.keep_newline && 0 <= fnl && fnl < w {
        } else if w > pi {
            lemma_nl_bounds(s, pi, w, v.line_start);
            lemma_nl_line_rel(s, pi, w, v.line, v.line_start);
            if !v.keep_whitespace {
                lemma_zc_next_wf(zc_at(v, w, v.line + count_nl(s, pi, w), line_start_after(s, pi, w, v.line_start)));
            }
        } else if v.line_comment.len() > 0 && occurs_at(s, v.line_comment, pi) {
            lemma_find_char_from(s, pi + v.line_comment.len() as int, '\n');
            let nlpos = find_char_from(s, pi + v.line_comment.len() as int, '\n');
            if nlpos >= 0 && !v.keep_comment {
                lemma_zc_next_wf(zc_at(v, nlpos, v.line, v.line_start));
            }
        } else if v.cms.len() > 0 && occurs_at(s, v.cms, pi) {
            lemma_find_sub_from(s, pi + v.cms.len() as int, v.cme);
            let endpos = find_sub_from(s, pi + v.cms.len() as int, v.cme);
            if endpos >= 0 {
                let np = endpos + v.cme.len() as int;
                lemma_nl_bounds(s, pi, np, v.line_start);
                lemma_nl_line_rel(s, pi, np, v.line, v.line_start);
                if !v.keep_comment {
                    lemma_zc_next_wf(zc_at(v, np, v.line + count_nl(s, pi, np), line_start_after(s, pi, np, v.line_start)));
                }
            }
        } else if pi + 1 < s.len() && v.doubles.contains((s[pi], s[pi + 1])) {
        } else if v.singles.contains(s[pi]) {
        } else if s[pi] == '\'' && pi + 2 < s.len() && s[pi + 2] == '\'' {
        } else if s[pi] == '"' {
            lemma_zc_str_end_bounds(s, pi + 1);
            let e = zc_str_end(s, pi + 1);
            if e >= 0 {
                lemma_nl_bounds(s, pi, e, v.line_start);
                lemma_nl_line_rel(s, pi, e, v.line, v.line_start);
            }
        } else if pi + 2 < s.len() && s[pi] == '0' && s[pi + 1] == 'x' && hex_digit(s[pi + 2]) {
            lemma_run_end(s, pi + 2, |c: char| hex_digit(c));
        } else if ascii_alpha(s[pi]) || s[pi] == '_' {
            lemma_run_end(s, pi + 1, |c: char| ident_char(c));
        } else if float_match_end(s, pi) >= 0 {
            lemma_run_end(s, pi, |c: char| ascii_digit(c));
            let d1 = digit_end(s, pi);
            lemma_run_end(s, d1 + 1, |c: char| ascii_digit(c));
        } else if ascii_digit(s[pi]) {
            lemma_run_end(s, pi, |c: char| ascii_digit(c));
            assert(digit_end(s, pi) == run_end(s, pi + 1, |c: char| ascii_digit(c)));
            lemma_run_end(s, pi + 1, |c: char| ascii_digit(c));
        } else if zc_sym_char(s[pi]) {
            lemma_run_end(s, pi, |c: char| zc_sym_char(c));
            assert(zc_sym_end(s, pi) == run_end(s, pi + 1, |c: char| zc_sym_char(c)));
            lemma_run_end(s, pi + 1, |c: char| zc_sym_char(c));
        }
    }
}

} // verus!

verus! {

/// Decides membership in the symbol character class.
pub(crate) fn is_zc_sym(c: char) -> (r: bool)
    ensures
        r == zc_sym_char(c),
{
    c == '!' || c == '@' || c == '#' || c == '$' || c == '%' || c == '^' || c == '&' || c == '*'
        || c == '?' || c == '-' || c == '+' || c == '/' || c == '.' || c == ',' || c == '<' || c
        == '>' || c == '=' || c == '~' || c == '`' || c == '\'' || c == ';' || c == ':' || c == '|'
        || c == '\\'
}

/// Finds the first occurrence of `c` in `s` at or after `from`.
pub(crate) fn find_char_exec(s: &str, from: usize, len: usize, c: char) -> (r: Option<usize>)
    requires
        from <= len,
        len as int == s@.len(),
    ensures
        match r {
            Option::Some(t) => find_char_from(s@, from as int, c) == t as int && from <= t < len,
            Option::None => find_char_from(s@, from as int, c) == -1,
        },
    decreases len - from,
{
    if from >= len {
        return None;
    }
    let x = char_at(s, from);
    if x == c {
        Some(from)
    } else {
        find_char_exec(s, from + 1, len, c)
    }
}

/// Decides whether `pat` occurs in `s` at position `i`.
pub(crate) fn occurs_exec(s: &str, i: usize, len: usize, pat: &str) -> (r: bool)
    requires
        i <= len,
        len as int == s@.len(),
    ensures
        r == occurs_at(s@, pat@, i as int),
{
    let plen = pat.unicode_len();
    if plen > len - i {
        return false;
    }
    let mut k: usize = 0;
    let mut stop = false;
    while !stop && k < plen
        invariant
            0 <= k <= plen,
            i + plen <= len,
            len as int == s@.len(),
            plen as int == pat@.len(),
            forall|t: int| 0 <= t < k ==> s@[i + t] == pat@[t],
            stop ==> exists|t: int| 0 <= t < plen && s@[i + t] != pat@[t],
        decreases plen - k + (if stop { 0int } else { 1int }),
    {
        let a = char_at(s, i + k);
        let b = char_at(pat, k);
        if a != b {
            stop = true;
        } else {
            k = k + 1;
        }
    }
    if stop {
        proof {
            let t = choose|t: int| 0 <= t < plen && s@[i + t] != pat@[t];
            assert(s@.subrange(i as int, i + plen)[t] == s@[i + t]);
            assert(!occurs_at(s@, pat@, i as int));
        }
        false
    } else {
        proof {
            assert(s@.subrange(i as int, i + plen) =~= pat@);
        }
        true
    }
}

/// Finds the first occurrence of `pat` in `s` at or after `from`.
pub(crate) fn find_sub_exec(s: &str, from: usize, len: usize, pat: &str) -> (r: Option<usize>)
    requires
        from <= len,
        len as int == s@.len(),
    ensures
        match r {
            Option::Some(t) => find_sub_from(s@, from as int, pat@) == t as int && from <= t && t
                + pat@.len() <= len,
            Option::None => find_sub_from(s@, from as int, pat@) == -1,
        },
    decreases len - from,
{
    let plen = pat.unicode_len();
    if plen == 0 {
        return Some(from);
    }
    if plen > len - from {
        return None;
    }
    if occurs_exec(s, from, len, pat) {
        Some(from)
    } else {
        find_sub_exec(s, from + 1, len, pat)
    }
}

/// Scans for the closing quote of a string literal whose body starts at `i`.
fn zc_str_scan(s: &str, i: usize, len: usize) -> (r: Option<usize>)
    requires
        i <= len,
        len as int == s@.len(),
    ensures
        match r {
            Option::Some(e) => zc_str_end(s@, i as int) == e as int && i < e <= len,
            Option::None => zc_str_end(s@, i as int) == -1,
        },
    decreases len - i,
{
    if i >= len {
        return None;
    }
    let c = char_at(s, i);
    if c == '"' {
        Some(i + 1)
    } else if c == '\\' {
        if len - i >= 2 {
            zc_str_scan(s, i + 2, len)
        } else {
            None
        }
    } else {
        zc_str_scan(s, i + 1, len)
    }
}

/// Advances line bookkeeping over the consumed range `s[a..b)`: the new
/// line number and line-start position.
fn advance_lines(s: &str, a: usize, b: usize, line: usize, ls: usize) -> (r: (usize, usize))
    requires
        a <= b,
        b as int <= s@.len(),
        s@.len() < usize::MAX,
        ls <= a,
        line <= ls + 1,
        1 <= line,
    ensures
        r.0 as int == line + count_nl(s@, a as int, b as int),
        r.1 as int == line_start_after(s@, a as int, b as int, ls as int),
        r.1 <= b,
        ls <= r.1,
        line <= r.0,
        r.0 as int <= r.1 as int + 1,
        1 <= r.0,
{
    let mut ln: usize = line;
    let mut l0: usize = ls;
    let mut j: usize = a;
    while j < b
        invariant
            a <= j <= b,
            b as int <= s@.len(),
            s@.len() < usize::MAX,
            ls <= a,
            line as int <= ls as int + 1,
            1 <= line,
            ln as int == line + count_nl(s@, a as int, j as int),
            l0 as int == line_start_after(s@, a as int, j as int, ls as int),
            ls <= l0,
            l0 <= j || (l0 == ls && j == a),
            ln as int <= l0 as int + 1,
            line <= ln,
            1 <= ln,
        decreases b - j,
    {
        let c = char_at(s, j);
        proof {
            assert(count_nl(s@, a as int, j + 1) == count_nl(s@, a as int, j as int) + (if s@[
                j as int
            ] == '\n' {
                1int
            } else {
                0int
            }));
            assert(line_start_after(s@, a as int, j + 1, ls as int) == (if s@[j as int] == '\n' {
                j + 1
            } else {
                line_start_after(s@, a as int, j as int, ls as int)
            }));
        }
        if c == '\n' {
            ln = ln + 1;
            l0 = j + 1;
        }
        j = j + 1;
    }
    (ln, l0)
}

/// The end of the decimal-digit run of `s` starting at `from`.
pub(crate) fn digit_run_to(s: &str, from: usize, len: usize) -> (r: usize)
    requires
        from <= len,
        len as int == s@.len(),
    ensures
        r as int == digit_end(s@, from as int),
        from <= r <= len,
    decreases len - from,
{
    if from >= len {
        return from;
    }
    let c = char_at(s, from);
    if is_digit(c) {
        digit_run_to(s, from + 1, len)
    } else {
        from
    }
}

/// The end of the hexadecimal-digit run of `s` starting at `from`.
fn hex_run_to(s: &str, from: usize, len: usize) -> (r: usize)
    requires
        from <= len,
        len as int == s@.len(),
    ensures
        r as int == hex_end(s@, from as int),
        from <= r <= len,
    decreases len - from,
{
    if from >= len {
        return from;
    }
    let c = char_at(s, from);
    if is_hex_digit(c) {
        hex_run_to(s, from + 1, len)
    } else {
        from
    }
}

/// The end of the identifier-character run of `s` starting at `from`.
fn ident_run_to(s: &str, from: usize, len: usize) -> (r: usize)
    requires
        from <= len,
        len as int == s@.len(),
    ensures
        r as int == ident_end(s@, from as int),
        from <= r <= len,
    decreases len - from,
{
    if from >= len {
        return from;
    }
    let c = char_at(s, from);
    let u: u32 = c as u32;
    if (65 <= u && u <= 90) || (97 <= u && u <= 122) || (48 <= u && u <= 57) || c == '_' {
        ident_run_to(s, from + 1, len)
    } else {
        from
    }
}

/// The end of the symbol-character run of `s` starting at `from`.
fn zc_sym_run_to(s: &str, from: usize, len: usize) -> (r: usize)
    requires
        from <= len,
        len as int == s@.len(),
    ensures
        r as int == zc_sym_end(s@, from as int),
        from <= r <= len,
    decreases len - from,
{
    if from >= len {
        return from;
    }
    let c = char_at(s, from);
    if is_zc_sym(c) {
        zc_sym_run_to(s, from + 1, len)
    } else {
        from
    }
}

/// The end of the whitespace run of `s` starting at `from`.
pub(crate) fn white_run_to(s: &str, from: usize, len: usize) -> (r: usize)
    requires
        from <= len,
        len as int == s@.len(),
    ensures
        r as int == white_end(s@, from as int),
        from <= r <= len,
    decreases len - from,
{
    if from >= len {
        return from;
    }
    let c = char_at(s, from);
    if is_white(c) {
        white_run_to(s, from + 1, len)
    } else {
        from
    }
}

/// The end of the non-whitespace run of `s` starting at `from`.
pub(crate) fn nonwhite_run_to(s: &str, from: usize, len: usize) -> (r: usize)
    requires
        from <= len,
        len as int == s@.len(),
    ensures
        r as int == nonwhite_end(s@, from as int),
        from <= r <= len,
    decreases len - from,
{
    if from >= len {
        return from;
    }
    let c = char_at(s, from);
    if !is_white(c) {
        nonwhite_run_to(s, from + 1, len)
    } else {
        from
    }
}

/// Whether the pair `(a, b)` is a registered double symbol.
fn vec_has_pair(v: &Vec<(char, char)>, a: char, b: char) -> (r: bool)
    ensures
        r == v@.contains((a, b)),
{
    let mut k: usize = 0;
    while k < v.len()
        invariant
            0 <= k <= v@.len(),
            forall|t: int| 0 <= t < k ==> v@[t] != (a, b),
        decreases v@.len() - k,
    {
        let (x, y) = v[k];
        if x == a && y == b {
            assert(v@[k as int] == (a, b));
            return true;
        }
        k = k + 1;
    }
    proof {
        if v@.contains((a, b)) {
            let t = choose|t: int| 0 <= t < v@.len() && v@[t] == (a, b);
            assert(false);
        }
    }
    false
}

/// Whether the character `a` is a registered single symbol.
pub(crate) fn vec_has_char(v: &Vec<char>, a: char) -> (r: bool)
    ensures
        r == v@.contains(a),
{
    let mut k: usize = 0;
    while k < v.len()
        invariant
            0 <= k <= v@.len(),
            forall|t: int| 0 <= t < k ==> v@[t] != a,
        decreases v@.len() - k,
    {
        if v[k] == a {
            assert(v@[k as int] == a);
            return true;
        }
        k = k + 1;
    }
    proof {
        if v@.contains(a) {
            let t = choose|t: int| 0 <= t < v@.len() && v@[t] == a;
            assert(false);
        }
    }
    false
}


} // verus!

verus! {

/// A generic zero-copy tokenizer producing [`RawToken`]s whose textual
/// payloads are slices of the bound input buffer.
pub struct StrTokenizer<'t> {
    doubles: Vec<(char, char)>,
    singles: Vec<char>,
    input: &'t str,
    position: usize,
    /// Whether runs of skipped whitespace are returned as
    /// [`RawToken::Whitespace`] tokens.  Default is false.
    pub keep_whitespace: bool,
    /// Whether newline characters are returned as [`RawToken::Newline`]
    /// tokens.  Default is false.
    pub keep_newline: bool,
    line: usize,
    line_comment: &'t str,
    ml_comment_start: &'t str,
    ml_comment_end: &'t str,
    /// Whether comments are kept and returned as [`RawToken::Verbatim`]
    /// tokens.  Default is false.
    pub keep_comment: bool,
    line_start: usize,
    src: &'t str,
}

impl<'t> View for StrTokenizer<'t> {
    type V = ZcView;

    closed spec fn view(&self) -> ZcView {
        ZcView {
            doubles: self.doubles@,
            singles: self.singles@,
            input: self.input@,
            position: self.position as int,
            keep_whitespace: self.keep_whitespace,
            keep_newline: self.keep_newline,
            line: self.line as int,
            line_comment: self.line_comment@,
            cms: self.ml_comment_start@,
            cme: self.ml_comment_end@,
            keep_comment: self.keep_comment,
            line_start: self.line_start as int,
        }
    }
}

impl<'t> StrTokenizer<'t> {
    pub open spec fn wf(&self) -> bool {
        view_wf(self@)
    }

    /// The source label (such as a path) attached to this tokenizer.
    pub closed spec fn src_view(&self) -> Seq<char> {
        self.src@
    }

    /// Creates a tokenizer with the default configuration — brackets as
    /// single symbols, `//` as line comment, `/*` and `*/` as multi-line
    /// comment markers — and no input bound yet.
    pub fn new() -> (r: StrTokenizer<'t>)
        ensures
            r.wf(),
            r@.doubles == Seq::<(char, char)>::empty(),
            r@.singles == seq!['(', ')', '[', ']', '{', '}'],
            r@.input == Seq::<char>::empty(),
            r@.position == 0,
            r@.keep_whitespace == false,
            r@.keep_newline == false,
            r@.keep_comment == false,
            r@.line == 1,
            r@.line_start == 0,
            r@.line_comment == "//"@,
            r@.cms == "/*"@,
            r@.cme == "*/"@,
            r.src_view() == Seq::<char>::empty(),
    {
        let mut singles: Vec<char> = Vec::new();
        singles.push('(');
        singles.push(')');
        singles.push('[');
        singles.push(']');
        singles.push('{');
        singles.push('}');
        proof {
            reveal_strlit("");
            reveal_strlit("//");
            reveal_strlit("/*");
            reveal_strlit("*/");
            assert(singles@ =~= seq!['(', ')', '[', ']', '{', '}']);
        }
        StrTokenizer {
            doubles: Vec::new(),
            singles,
            input: "",
            position: 0,
            keep_whitespace: false,
            keep_newline: false,
            line: 1,
            line_comment: "//",
            ml_comment_start: "/*",
            ml_comment_end: "*/",
            keep_comment: false,
            line_start: 0,
            src: "",
        }
    }

    /// Registers a symbol of exactly two characters, which takes precedence
    /// over all rules except whitespace and comments.  Anything of another
    /// length has no effect.
    pub fn add_double(&mut self, s: &'t str)
        ensures
            s@.len() == 2 ==> final(self)@ == (ZcView {
                doubles: old(self)@.doubles.push((s@[0], s@[1])),
                ..old(self)@
            }),
            s@.len() != 2 ==> final(self)@ == old(self)@,
            final(self).wf() == old(self).wf(),
            final(self).src_view() == old(self).src_view(),
    {
        if s.unicode_len() == 2 {
            let a = char_at(s, 0);
            let b = char_at(s, 1);
            self.doubles.push((a, b));
        }
    }

    /// Registers a single-character symbol, which overrides every rule
    /// except whitespace, comments and double symbols.
    pub fn add_single(&mut self, c: char)
        ensures
            final(self)@ == (ZcView { singles: old(self)@.singles.push(c), ..old(self)@ }),
            final(self).wf() == old(self).wf(),
            final(self).src_view() == old(self).src_view(),
    {
        self.singles.push(c);
    }

    /// Binds the input text to be scanned and resets all position
    /// information.  Trailing whitespace is trimmed from the input.
    pub fn set_input(&mut self, inp: &'t str)
        requires
            inp@.len() < usize::MAX,
        ensures
            final(self)@ == (ZcView {
                input: inp@.subrange(0, trim_end_pos(inp@, inp@.len() as int)),
                position: 0,
                line: 1,
                line_start: 0,
                ..old(self)@
            }),
            old(self).wf() ==> final(self).wf(),
            final(self).src_view() == old(self).src_view(),
    {
        let len = inp.unicode_len();
        let mut e: usize = len;
        let mut stop = false;
        while !stop && e > 0
            invariant
                e <= len,
                len as int == inp@.len(),
                !stop ==> trim_end_pos(inp@, len as int) == trim_end_pos(inp@, e as int),
                stop ==> trim_end_pos(inp@, len as int) == e as int,
            decreases e + (if stop { 0int } else { 1int }),
        {
            let c = char_at(inp, e - 1);
            if is_white(c) {
                assert(trim_end_pos(inp@, e as int) == trim_end_pos(inp@, e - 1));
                e = e - 1;
            } else {
                assert(trim_end_pos(inp@, e as int) == e as int);
                stop = true;
            }
        }
        proof {
            if !stop {
                assert(trim_end_pos(inp@, e as int) == e as int);
            }
        }
        self.input = inp.substring_char(0, e);
        self.position = 0;
        self.line = 1;
        self.line_start = 0;
    }

    /// Sets the symbol that begins a single-line comment; the empty string
    /// disables line comments.  The default is `//`.
    pub fn set_line_comment(&mut self, cm: &'t str)
        ensures
            final(self)@ == (ZcView { line_comment: cm@, ..old(self)@ }),
            final(self).wf() == old(self).wf(),
            final(self).src_view() == old(self).src_view(),
    {
        self.line_comment = cm;
    }

    /// Sets the delimiters of multi-line comments from a whitespace
    /// separated pair such as `"/* */"` (the default).  The empty string
    /// disables multi-line comments; anything that is not exactly two
    /// pieces has no effect.
    pub fn set_multiline_comments(&mut self, cm: &'t str)
        ensures
            cm@.len() == 0 ==> final(self)@ == (ZcView {
                cms: Seq::<char>::empty(),
                cme: Seq::<char>::empty(),
                ..old(self)@
            }),
            cm@.len() > 0 && ws_pieces(cm@, 0).len() == 2 ==> final(self)@ == (ZcView {
                cms: ws_pieces(cm@, 0)[0],
                cme: ws_pieces(cm@, 0)[1],
                ..old(self)@
            }),
            cm@.len() > 0 && ws_pieces(cm@, 0).len() != 2 ==> final(self)@ == old(self)@,
            old(self).wf() ==> final(self).wf(),
            final(self).src_view() == old(self).src_view(),
    {
        let len = cm.unicode_len();
        if len == 0 {
            self.ml_comment_start = "";
            self.ml_comment_end = "";
            proof {
                reveal_strlit("");
                assert(""@ =~= Seq::<char>::empty());
            }
            return ;
        }
        let a1 = white_run_to(cm, 0, len);
        proof {
            lemma_white_end(cm@, 0);
        }
        if a1 == len {
            return ;
        }
        let b1 = nonwhite_run_to(cm, a1, len);
        proof {
            lemma_nonwhite_end(cm@, a1 as int);
        }
        let a2 = white_run_to(cm, b1, len);
        proof {
            lemma_white_end(cm@, b1 as int);
        }
        if a2 == len {
            assert(ws_pieces(cm@, b1 as int) =~= Seq::<Seq<char>>::empty());
            assert(ws_pieces(cm@, 0) =~= seq![cm@.subrange(a1 as int, b1 as int)]);
            return ;
        }
        let b2 = nonwhite_run_to(cm, a2, len);
        proof {
            lemma_nonwhite_end(cm@, a2 as int);
        }
        let a3 = white_run_to(cm, b2, len);
        proof {
            lemma_white_end(cm@, b2 as int);
        }
        if a3 < len {
            proof {
                lemma_nonwhite_end(cm@, a3 as int);
                assert(ws_pieces(cm@, b2 as int) == seq![
                    cm@.subrange(a3 as int, nonwhite_end(cm@, a3 as int)),
                ] + ws_pieces(cm@, nonwhite_end(cm@, a3 as int)));
                assert(ws_pieces(cm@, b1 as int) == seq![cm@.subrange(a2 as int, b2 as int)]
                    + ws_pieces(cm@, b2 as int));
                assert(ws_pieces(cm@, 0) == seq![cm@.subrange(a1 as int, b1 as int)] + ws_pieces(
                    cm@,
                    b1 as int,
                ));
                assert(ws_pieces(cm@, 0).len() >= 3);
            }
            return ;
        }
        proof {
            assert(ws_pieces(cm@, b2 as int) =~= Seq::<Seq<char>>::empty());
            assert(ws_pieces(cm@, b1 as int) == seq![cm@.subrange(a2 as int, b2 as int)]
                + ws_pieces(cm@, b2 as int));
            assert(ws_pieces(cm@, 0) == seq![cm@.subrange(a1 as int, b1 as int)] + ws_pieces(
                cm@,
                b1 as int,
            ));
            assert(ws_pieces(cm@, 0) =~= seq![
                cm@.subrange(a1 as int, b1 as int),
                cm@.subrange(a2 as int, b2 as int),
            ]);
        }
        self.ml_comment_start = cm.substring_char(a1, b1);
        self.ml_comment_end = cm.substring_char(a2, b2);
    }

    /// The current line the tokenizer is on.
    pub fn line(&self) -> (r: usize)
        ensures
            r as int == self@.line,
    {
        self.line
    }

    /// The current column of the tokenizer on its line.
    pub fn column(&self) -> (r: usize)
        requires
            self.wf(),
        ensures
            r as int == self@.position - self@.line_start + 1,
    {
        self.position - self.line_start + 1
    }

    /// The current absolute character position of the tokenizer.
    pub fn position(&self) -> (r: usize)
        ensures
            r as int == self@.position,
    {
        self.position
    }

    /// The source label (such as a URL or file name) of the tokenizer.
    pub fn get_source(&self) -> (r: &'t str)
        ensures
            r@ == self.src_view(),
    {
        self.src
    }

    /// Attaches a source label (such as a URL or file name).
    pub fn set_source(&mut self, s: &'t str)
        ensures
            final(self)@ == old(self)@,
            final(self).src_view() == s@,
    {
        self.src = s;
    }
}

} // verus!

verus! {

/// Decides `ascii_alpha` exactly.
pub(crate) fn is_a_alpha(c: char) -> (r: bool)
    ensures
        r == ascii_alpha(c),
{
    let u: u32 = c as u32;
    (65 <= u && u <= 90) || (97 <= u && u <= 122)
}

impl<'t> StrTokenizer<'t> {
    /// Returns the next token together with its starting line and column,
    /// or `None` at end of input, exactly as [`spec_zc_next`] describes.
    /// Unterminated literals and comments, numeral overflow and
    /// unrecognized input yield a [`RawToken::LexError`] with the position
    /// pinned to the end of the input, so that no tokens follow it.
    #[verifier::rlimit(100)]
    pub fn next_token(&mut self) -> (r: Option<(RawToken<'t>, usize, usize)>)
        requires
            old(self).wf(),
        ensures
            final(self).wf(),
            final(self)@ == spec_zc_next(old(self)@).1,
            final(self).src_view() == old(self).src_view(),
            (r is None) == (spec_zc_next(old(self)@).0 is None),
            r matches Some(t) ==> spec_zc_next(old(self)@).0 == Some((t.0@, t.1 as int, t.2 as int)),
    {
        loop
            invariant
                self.wf(),
                spec_zc_next(old(self)@) == spec_zc_next(self@),
                self.src_view() == old(self).src_view(),
            decreases self@.input.len() - self@.position,
        {
            let ghost v = self@;
            proof {
                lemma_zc_next_wf(v);
            }
            let inp = self.input;
            let len = inp.unicode_len();
            let pi = self.position;
            if pi >= len {
                return None;
            }
            let line0 = self.line;
            let ls0 = self.line_start;
            let col0 = pi - ls0 + 1;
            let w = white_run_to(inp, pi, len);
            if self.keep_newline {
                let fo = find_char_exec(inp, pi, len, '\n');
                match fo {
                    Some(t) => {
                        if t < w {
                            self.position = t + 1;
                            self.line = line0 + 1;
                            self.line_start = t + 1;
                            proof {
                                assert(self@ == zc_at(v, t + 1, v.line + 1, t + 1));
                            }
                            return Some((RawToken::Newline, line0, t - ls0 + 1));
                        }
                    },
                    None => {},
                }
            }
            let ghost fnl = find_char_from(v.input, pi as int, '\n');
            proof {
                lemma_find_char_from(v.input, pi as int, '\n');
                assert(!(v.keep_newline && 0 <= fnl && fnl < w as int));
            }
            if w > pi {
                let ls = advance_lines(inp, pi, w, line0, ls0);
                self.position = w;
                self.line = ls.0;
                self.line_start = ls.1;
                if self.keep_whitespace {
                    return Some((RawToken::Whitespace(w - pi), line0, col0));
                }
                proof {
                    assert(spec_zc_next(v) == spec_zc_next(self@));
                }
                continue ;
            }
            let lc = self.line_comment;
            let clen = lc.unicode_len();
            if clen > 0 && occurs_exec(inp, pi, len, lc) {
                assert(pi + clen <= len);
                match find_char_exec(inp, pi + clen, len, '\n') {
                    Some(nl) => {
                        self.position = nl;
                        if self.keep_comment {
                            let txt = inp.substring_char(pi, nl);
                            return Some((RawToken::Verbatim(txt), line0, col0));
                        }
                        proof {
                            assert(spec_zc_next(v) == spec_zc_next(self@));
                        }
                        continue ;
                    },
                    None => {
                        self.position = len;
                        if self.keep_comment {
                            let txt = inp.substring_char(pi, len);
                            return Some((RawToken::Verbatim(txt), line0, col0));
                        }
                        return None;
                    },
                }
            }
            let cms = self.ml_comment_start;
            let cmslen = cms.unicode_len();
            if cmslen > 0 && occurs_exec(inp, pi, len, cms) {
                assert(pi + cmslen <= len);
                let cme = self.ml_comment_end;
                match find_sub_exec(inp, pi + cmslen, len, cme) {
                    Some(endpos) => {
                        let np = endpos + cme.unicode_len();
                        let ls = advance_lines(inp, pi, np, line0, ls0);
                        self.position = np;
                        self.line = ls.0;
                        self.line_start = ls.1;
                        if self.keep_comment {
                            let txt = inp.substring_char(pi, np);
                            return Some((RawToken::Verbatim(txt), line0, col0));
                        }
                        proof {
                            assert(spec_zc_next(v) == spec_zc_next(self@));
                        }
                        continue ;
                    },
                    None => {
                        self.position = len;
                        return Some((RawToken::LexError, line0, col0));
                    },
                }
            }
            let c0 = char_at(inp, pi);
            if pi + 1 < len {
                let c1 = char_at(inp, pi + 1);
                if vec_has_pair(&self.doubles, c0, c1) {
                    self.position = pi + 2;
                    let txt = inp.substring_char(pi, pi + 2);
                    return Some((RawToken::Symbol(txt), line0, col0));
                }
            }
            if vec_has_char(&self.singles, c0) {
                self.position = pi + 1;
                let txt = inp.substring_char(pi, pi + 1);
                return Some((RawToken::Symbol(txt), line0, col0));
            }
            if c0 == '\'' && pi + 2 < len {
                let c2 = char_at(inp, pi + 2);
                if c2 == '\'' {
                    let c1 = char_at(inp, pi + 1);
                    self.position = pi + 3;
                    return Some((RawToken::Char(c1), line0, col0));
                }
            }
            if c0 == '"' {
                match zc_str_scan(inp, pi + 1, len) {
                    Some(e) => {
                        let ls = advance_lines(inp, pi, e, line0, ls0);
                        self.position = e;
                        self.line = ls.0;
                        self.line_start = ls.1;
                        let txt = inp.substring_char(pi, e);
                        return Some((RawToken::Strlit(txt), line0, col0));
                    },
                    None => {
                        self.position = len;
                        return Some((RawToken::LexError, line0, col0));
                    },
                }
            }
            if c0 == '0' && pi + 2 < len {
                let cx = char_at(inp, pi + 1);
                if cx == 'x' {
                    let ch = char_at(inp, pi + 2);
                    if is_hex_digit(ch) {
                        let he = hex_run_to(inp, pi + 2, len);
                        proof {
                            lemma_run_end(v.input, pi + 2, |c: char| hex_digit(c));
                            assert forall|t: int|
                                0 <= t < v.input.subrange(pi + 2, he as int).len() implies hex_digit(
                                #[trigger] v.input.subrange(pi + 2, he as int)[t],
                            ) by {
                                assert(v.input.subrange(pi + 2, he as int)[t] == v.input[pi + 2
                                    + t]);
                            }
                        }
                        match parse_hex(inp, pi + 2, he) {
                            Some(hv) => {
                                self.position = he;
                                return Some((RawToken::Num(to_signed(hv)), line0, col0));
                            },
                            None => {
                                self.position = len;
                                return Some((RawToken::LexError, line0, col0));
                            },
                        }
                    }
                }
            }
            if is_a_alpha(c0) || c0 == '_' {
                let ie = ident_run_to(inp, pi + 1, len);
                self.position = ie;
                let txt = inp.substring_char(pi, ie);
                return Some((RawToken::Alphanum(txt), line0, col0));
            }
            let d1 = digit_run_to(inp, pi, len);
            let mut fe_opt: Option<usize> = None;
            if d1 < len {
                let cd = char_at(inp, d1);
                if cd == '.' && d1 + 1 < len {
                    let cd2 = char_at(inp, d1 + 1);
                    if is_digit(cd2) {
                        fe_opt = Some(digit_run_to(inp, d1 + 1, len));
                    }
                }
            }
            match fe_opt {
                Some(fe) => {
                    assert(fe as int == float_match_end(v.input, pi as int));
                    self.position = fe;
                    let txt = inp.substring_char(pi, fe);
                    return Some((RawToken::Float(txt), line0, col0));
                },
                None => {
                    assert(float_match_end(v.input, pi as int) == -1);
                },
            }
            if is_digit(c0) {
                proof {
                    lemma_run_end(v.input, pi as int, |c: char| ascii_digit(c));
                    assert forall|t: int|
                        0 <= t < v.input.subrange(pi as int, d1 as int).len() implies ascii_digit(
                        #[trigger] v.input.subrange(pi as int, d1 as int)[t],
                    ) by {
                        assert(v.input.subrange(pi as int, d1 as int)[t] == v.input[pi + t]);
                    }
                }
                match parse_dec(inp, pi, d1) {
                    Some(dv) => {
                        self.position = d1;
                        return Some((RawToken::Num(dv), line0, col0));
                    },
                    None => {
                        self.position = len;
                        return Some((RawToken::LexError, line0, col0));
                    },
                }
            }
            if is_zc_sym(c0) {
                let se = zc_sym_run_to(inp, pi, len);
                proof {
                    assert(zc_sym_end(v.input, pi as int) == run_end(
                        v.input,
                        pi + 1,
                        |c: char| zc_sym_char(c),
                    ));
                    lemma_run_end(v.input, pi + 1, |c: char| zc_sym_char(c));
                }
                self.position = se;
                let txt = inp.substring_char(pi, se);
                return Some((RawToken::Symbol(txt), line0, col0));
            }
            self.position = len;
            return Some((RawToken::LexError, line0, col0));
        }
    }
}

/// The contents of a scanning source (such as the contents of a file),
/// together with the path it was read from.  The reading itself is the
/// caller's concern: a source is built from the path and the text.
pub struct LexSource {
    pathname: String,
    contents: String,
}

impl LexSource {
    /// The contents of the source.
    pub closed spec fn contents_view(&self) -> Seq<char> {
        self.contents@
    }

    /// The path of the source.
    pub closed spec fn path_view(&self) -> Seq<char> {
        self.pathname@
    }

    pub open spec fn wf(&self) -> bool {
        self.contents_view().len() < usize::MAX
    }

    /// Creates a source from a path label and the text read from it.
    pub fn from_parts(pathname: String, contents: String) -> (r: LexSource)
        requires
            contents@.len() < usize::MAX,
        ensures
            r.wf(),
            r.contents_view() == contents@,
            r.path_view() == pathname@,
    {
        LexSource { pathname, contents }
    }

    /// Retrieves the entire contents of the source.
    pub fn get_contents(&self) -> (r: &str)
        ensures
            r@ == self.contents_view(),
    {
        self.contents.as_str()
    }

    /// Retrieves the original path (such as a file name) of this source.
    pub fn get_path(&self) -> (r: &str)
        ensures
            r@ == self.path_view(),
    {
        self.pathname.as_str()
    }
}

impl<'t> StrTokenizer<'t> {
    /// Creates a tokenizer reading from a [`LexSource`], with the source's
    /// contents as input and its path as source label.
    pub fn from_source(ls: &'t LexSource) -> (r: StrTokenizer<'t>)
        requires
            ls.wf(),
        ensures
            r.wf(),
            r@.input == ls.contents_view().subrange(
                0,
                trim_end_pos(ls.contents_view(), ls.contents_view().len() as int),
            ),
            r@.position == 0,
            r@.line == 1,
            r@.line_start == 0,
            r@.doubles == Seq::<(char, char)>::empty(),
            r@.singles == seq!['(', ')', '[', ']', '{', '}'],
            r@.line_comment == "//"@,
            r@.cms == "/*"@,
            r@.cme == "*/"@,
            r@.keep_whitespace == false,
            r@.keep_newline == false,
            r@.keep_comment == false,
            r.src_view() == ls.path_view(),
    {
        let mut stk = StrTokenizer::new();
        stk.set_input(ls.get_contents());
        stk.set_source(ls.get_path());
        stk
    }

    /// Creates a tokenizer and binds its input to the given text.
    pub fn from_str(s: &'t str) -> (r: StrTokenizer<'t>)
        requires
            s@.len() < usize::MAX,
        ensures
            r.wf(),
            r@.input == s@.subrange(0, trim_end_pos(s@, s@.len() as int)),
            r@.position == 0,
            r@.line == 1,
            r@.line_start == 0,
            r@.doubles == Seq::<(char, char)>::empty(),
            r@.singles == seq!['(', ')', '[', ']', '{', '}'],
            r@.line_comment == "//"@,
            r@.cms == "/*"@,
            r@.cme == "*/"@,
            r@.keep_whitespace == false,
            r@.keep_newline == false,
            r@.keep_comment == false,
    {
        let mut stk = StrTokenizer::new();
        stk.set_input(s);
        stk
    }
}

} // verus!

// ---------------------------------------------------------------------------
// Laws of the zero-copy scanner.
// ---------------------------------------------------------------------------

verus! {

/// The stream of `(token, line, column)` triples a scan from `v` produces.
pub open spec fn zc_tokens(v: ZcView) -> Seq<(RawView, int, int)>
    decreases v.input.len() - v.position when view_wf(v) via zc_tokens_decreases
{
    let step = spec_zc_next(v);
    match step.0 {
        None => Seq::empty(),
        Some(t) => seq![t] + zc_tokens(step.1),
    }
}

#[via_fn]
proof fn zc_tokens_decreases(v: ZcView) {
    lemma_zc_next_wf(v);
}

/// The text consumed by the steps of a scan from `v`: every token's literal
/// text plus all skipped whitespace and comments.
pub open spec fn zc_text(v: ZcView) -> Seq<char>
    decreases v.input.len() - v.position when view_wf(v) via zc_text_decreases
{
    let step = spec_zc_next(v);
    match step.0 {
        None => v.input.subrange(v.position, step.1.position),
        Some(_) => v.input.subrange(v.position, step.1.position) + zc_text(step.1),
    }
}

#[via_fn]
proof fn zc_text_decreases(v: ZcView) {
    lemma_zc_next_wf(v);
}

/// Law (round trip): concatenating the text consumed by every step of a
/// scan — each token's literal text plus all skipped whitespace and
/// comments — reconstructs the remaining input exactly, for any
/// configuration.
pub proof fn lemma_zc_round_trip(v: ZcView)
    requires
        view_wf(v),
    ensures
        zc_text(v) == v.input.subrange(v.position, v.input.len() as int),
    decreases v.input.len() - v.position,
{
    lemma_zc_next_wf(v);
    let step = spec_zc_next(v);
    match step.0 {
        None => {},
        Some(_) => {
            lemma_zc_round_trip(step.1);
            assert(v.input.subrange(v.position, step.1.position) + v.input.subrange(
                step.1.position,
                v.input.len() as int,
            ) =~= v.input.subrange(v.position, v.input.len() as int));
        },
    }
}

/// Law (idempotence): the token stream is a pure function of the scanner's
/// view, so re-scanning the same bound buffer with a fresh instance yields
/// the identical sequence of tokens.
pub proof fn lemma_zc_rescan_idempotent(v1: ZcView, v2: ZcView)
    requires
        v1 == v2,
    ensures
        zc_tokens(v1) == zc_tokens(v2),
{
}

/// Law: an unterminated multi-line comment yields one LexError token
/// located at the comment's opening position, and no tokens are produced
/// thereafter (the position is pinned to the end of the input).
pub proof fn lemma_zc_unterminated_comment(v: ZcView)
    requires
        view_wf(v),
        v.position < v.input.len(),
        !white_char(v.input[v.position]),
        !(v.line_comment.len() > 0 && occurs_at(v.input, v.line_comment, v.position)),
        v.cms.len() > 0,
        occurs_at(v.input, v.cms, v.position),
        find_sub_from(v.input, v.position + v.cms.len() as int, v.cme) == -1,
    ensures
        spec_zc_next(v).0 == Some((RawView::ErrTok, v.line, v.position - v.line_start + 1)),
        spec_zc_next(v).1.position == v.input.len(),
        spec_zc_next(spec_zc_next(v).1).0 is None,
        zc_tokens(v) == seq![(RawView::ErrTok, v.line, v.position - v.line_start + 1)],
{
    lemma_white_end(v.input, v.position);
    assert(white_end(v.input, v.position) == v.position);
    lemma_find_char_from(v.input, v.position, '\n');
    lemma_zc_next_wf(v);
    assert(zc_tokens(spec_zc_next(v).1) == Seq::<(RawView, int, int)>::empty());
    assert(zc_tokens(v) =~= seq![(RawView::ErrTok, v.line, v.position - v.line_start + 1)]);
}

} // verus!
