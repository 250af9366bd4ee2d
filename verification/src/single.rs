//! The single-shot buffer scanner: it operates over one in-memory text
//! buffer, trimmed of leading whitespace per call, with no multi-line
//! constructs.  Each call to [`Str_tokenizer::next`] removes one matched
//! prefix, together with the whitespace around it, and returns the token.
//!
//! The behaviour of every step is pinned down by the spec functions
//! [`spec_next_token`] and [`spec_scan`]; the laws at the end of this module
//! (single Integer for digit runs, single Float for `X.Y`, round-trip
//! reconstruction, determinism, singleton brackets) are proved from them.

use vstd::prelude::*;
use vstd::string::StrSliceExecFns;
use crate::chars::alpha_char;
use crate::chars::alnum_char;
use crate::chars::white_char;
use crate::chars::ascii_digit;
use crate::chars::all_white;
use crate::chars::run_end;
use crate::chars::lemma_run_end;
use crate::chars::white_end;
use crate::chars::lemma_white_end;
use crate::chars::is_alpha;
use crate::chars::is_alnum;
use crate::chars::is_white;
use crate::chars::is_digit;
use crate::chars::char_at;
use crate::numerals::all_digits;
use crate::numerals::dec_val;
use crate::numerals::num_end;
use crate::numerals::lemma_num_end_bounds;
use crate::numerals::lemma_num_end_digits;
use crate::numerals::parse_dec;
use crate::token::Token;
use crate::token::TokView;

verus! {

/// A character that may continue an alphanumeric token: alphanumeric or `_`.
pub open spec fn word_char(c: char) -> bool {
    alnum_char(c) || c == '_'
}

/// The six bracket characters, which are always singleton symbols.
pub open spec fn delim_char(c: char) -> bool {
    c == '(' || c == '[' || c == '{' || c == ')' || c == ']' || c == '}'
}

/// A character that ends (and cannot start) a generic symbol run.
pub open spec fn sym_stop(c: char) -> bool {
    white_char(c) || ascii_digit(c) || alnum_char(c) || c == '_' || c == '"' || c == '.'
        || delim_char(c)
}

/// The end of the word-character run starting at `i`.
pub open spec fn word_run_end(s: Seq<char>, i: int) -> int {
    run_end(s, i, |c: char| word_char(c))
}

pub proof fn lemma_word_run_end(s: Seq<char>, i: int)
    requires
        0 <= i <= s.len(),
    ensures
        i <= word_run_end(s, i) <= s.len(),
        forall|j: int| i <= j < word_run_end(s, i) ==> word_char(s[j]),
        word_run_end(s, i) < s.len() ==> !word_char(s[word_run_end(s, i)]),
{
    lemma_run_end(s, i, |c: char| word_char(c));
}

/// The end of the generic-symbol run starting at `i`.
pub open spec fn sym_run_end(s: Seq<char>, i: int) -> int {
    run_end(s, i, |c: char| !sym_stop(c))
}

pub proof fn lemma_sym_run_end(s: Seq<char>, i: int)
    requires
        0 <= i <= s.len(),
    ensures
        i <= sym_run_end(s, i) <= s.len(),
        forall|j: int| i <= j < sym_run_end(s, i) ==> !sym_stop(s[j]),
        sym_run_end(s, i) < s.len() ==> sym_stop(s[sym_run_end(s, i)]),
{
    lemma_run_end(s, i, |c: char| !sym_stop(c));
}

/// Where a string literal whose body starts at `i` ends: the index one past
/// the closing quote, or `-1` if no unescaped closing quote follows.  A
/// backslash forces the character after it, whatever it is, to be skipped.
pub open spec fn strlit_end(s: Seq<char>, i: int) -> int
    decreases s.len() - i when 0 <= i <= s.len()
{
    if i >= s.len() {
        -1
    } else if s[i] == '\\' && i + 1 < s.len() {
        strlit_end(s, i + 2)
    } else if s[i] == '"' {
        i + 1
    } else {
        strlit_end(s, i + 1)
    }
}

pub proof fn lemma_strlit_end_bounds(s: Seq<char>, i: int)
    requires
        0 <= i <= s.len(),
    ensures
        strlit_end(s, i) == -1 || i < strlit_end(s, i) <= s.len(),
    decreases s.len() - i,
{
    if i < s.len() {
        if s[i] == '\\' && i + 1 < s.len() {
            lemma_strlit_end_bounds(s, i + 2);
        } else if s[i] != '"' {
            lemma_strlit_end_bounds(s, i + 1);
        }
    }
}

/// The length matched by the alphanumeric-token rule at the head of `s`.
pub open spec fn spec_match_alphanum(s: Seq<char>) -> int {
    if s.len() >= 1 && (alpha_char(s[0]) || s[0] == '_') {
        word_run_end(s, 1)
    } else {
        0
    }
}

/// The length matched by the numeral rule at the head of `s`, or 0.
pub open spec fn spec_match_num(s: Seq<char>) -> int {
    if num_end(s, 0, false, false) == -1 {
        0
    } else {
        num_end(s, 0, false, false)
    }
}

/// The length matched by the string-literal rule at the head of `s`, or 0.
pub open spec fn spec_match_strlit(s: Seq<char>) -> int {
    if s.len() >= 1 && s[0] == '"' {
        if strlit_end(s, 1) == -1 {
            0
        } else {
            strlit_end(s, 1)
        }
    } else {
        0
    }
}

/// The length matched by the symbol rule at the head of `s`: a bracket is a
/// singleton, a symbol-stopping character matches nothing, and anything else
/// starts a maximal run of non-stopping characters.
pub open spec fn spec_match_symbol(s: Seq<char>) -> int {
    if s.len() < 1 {
        0
    } else if delim_char(s[0]) {
        1
    } else if ascii_digit(s[0]) || alnum_char(s[0]) || s[0] == '_' || s[0] == '"' || s[0] == '.' {
        0
    } else {
        sym_run_end(s, 1)
    }
}

/// One step of the single-shot matcher on the (already trimmed) text `s`:
/// the token produced and the number of characters consumed.
pub open spec fn spec_next_token(s: Seq<char>) -> (TokView, int) {
    if s.len() == 0 {
        (TokView::NL, 0)
    } else if alpha_char(s[0]) || s[0] == '_' {
        let n = spec_match_alphanum(s);
        (TokView::Alpha(s.take(n)), n)
    } else if s[0] == '.' || ascii_digit(s[0]) {
        let n = spec_match_num(s);
        if n > 0 {
            if all_digits(s.take(n)) && dec_val(s.take(n)) <= i64::MAX {
                (TokView::Int(dec_val(s.take(n))), n)
            } else {
                (TokView::Fl(s.take(n)), n)
            }
        } else {
            (TokView::Sym(s.take(1)), 1)
        }
    } else if s[0] == '"' {
        let n = spec_match_strlit(s);
        if n > 0 {
            (TokView::Strlit(s.take(n)), n)
        } else {
            (TokView::Verb(s), s.len() as int)
        }
    } else {
        let n = spec_match_symbol(s);
        if n > 0 {
            (TokView::Sym(s.take(n)), n)
        } else {
            (TokView::Verb(s), s.len() as int)
        }
    }
}

pub proof fn lemma_next_token_bounds(s: Seq<char>)
    requires
        s.len() >= 1,
    ensures
        1 <= spec_next_token(s).1 <= s.len(),
{
    if alpha_char(s[0]) || s[0] == '_' {
        lemma_word_run_end(s, 1);
    } else if s[0] == '.' || ascii_digit(s[0]) {
        lemma_num_end_bounds(s, 0, false, false);
    } else if s[0] == '"' {
        lemma_strlit_end_bounds(s, 1);
    } else {
        lemma_sym_run_end(s, 1);
    }
}

/// Decides `word_char` exactly.
pub(crate) fn is_word(c: char) -> (r: bool)
    ensures
        r == word_char(c),
{
    is_alnum(c) || c == '_'
}

/// Decides whether `c` is one of the six brackets, which always form
/// singleton symbols.
pub fn isdelim(c: char) -> (r: bool)
    ensures
        r == delim_char(c),
{
    c == '(' || c == '[' || c == '{' || c == ')' || c == ']' || c == '}'
}

/// Decides `sym_stop` exactly.
pub(crate) fn is_sym_stop(c: char) -> (r: bool)
    ensures
        r == sym_stop(c),
{
    is_white(c) || is_digit(c) || is_alnum(c) || c == '_' || c == '"' || c == '.' || isdelim(c)
}

/// The end of the whitespace run of `s` starting at `from`.
pub(crate) fn white_to(s: &str, from: usize, len: usize) -> (r: usize)
    requires
        from <= len,
        len as int == s@.len(),
    ensures
        r as int == white_end(s@, from as int),
        from <= r <= len,
        all_white(s@, from as int, r as int),
        r < len ==> !white_char(s@[r as int]),
{
    let mut j: usize = from;
    let mut stop = false;
    while !stop && j < len
        invariant
            from <= j <= len,
            len as int == s@.len(),
            all_white(s@, from as int, j as int),
            !stop ==> white_end(s@, from as int) == white_end(s@, j as int),
            stop ==> white_end(s@, from as int) == j as int && j < len && !white_char(s@[j as int]),
        decreases len - j + (if stop { 0int } else { 1int }),
    {
        let c = char_at(s, j);
        if is_white(c) {
            assert(white_end(s@, j as int) == white_end(s@, j + 1));
            j = j + 1;
        } else {
            assert(white_end(s@, j as int) == j as int);
            stop = true;
        }
    }
    proof {
        if !stop {
            assert(white_end(s@, j as int) == j as int);
        }
    }
    j
}

/// Matches an alphanumeric token at the head of `s`: an alphabetic character
/// or `_`, then the longest run of alphanumeric characters or `_`.  Returns
/// the matched length, or 0 if the first character does not qualify.
pub fn match_alphanum(s: &str) -> (n: usize)
    ensures
        n as int == spec_match_alphanum(s@),
        n <= s@.len(),
{
    let len = s.unicode_len();
    if len < 1 {
        return 0;
    }
    let c0 = char_at(s, 0);
    if !(is_alpha(c0) || c0 == '_') {
        return 0;
    }
    let mut j: usize = 1;
    let mut stop = false;
    while !stop && j < len
        invariant
            1 <= j <= len,
            len as int == s@.len(),
            !stop ==> word_run_end(s@, 1) == word_run_end(s@, j as int),
            stop ==> word_run_end(s@, 1) == j as int,
        decreases len - j + (if stop { 0int } else { 1int }),
    {
        let c = char_at(s, j);
        if is_word(c) {
            assert(word_run_end(s@, j as int) == word_run_end(s@, j + 1));
            j = j + 1;
        } else {
            assert(word_run_end(s@, j as int) == j as int);
            stop = true;
        }
    }
    proof {
        if !stop {
            assert(word_run_end(s@, j as int) == j as int);
        }
    }
    j
}

/// Matches a numeral at the head of `s`: digits with at most one `.`, at
/// least one digit.  A second `.` invalidates the whole match.  Returns the
/// matched length, or 0 on failure.
pub fn match_num(s: &str) -> (n: usize)
    ensures
        n as int == spec_match_num(s@),
        n <= s@.len(),
{
    let len = s.unicode_len();
    let mut j: usize = 0;
    let mut point = false;
    let mut dig = false;
    let mut state: u8 = 0;
    while state == 0 && j < len
        invariant
            0 <= j <= len,
            len as int == s@.len(),
            state == 0 || state == 1 || state == 2,
            state == 0 ==> num_end(s@, 0, false, false) == num_end(s@, j as int, point, dig),
            state == 1 ==> num_end(s@, 0, false, false) == (if dig {
                j as int
            } else {
                -1
            }),
            state == 2 ==> num_end(s@, 0, false, false) == -1,
        decreases len - j + (if state == 0 { 1int } else { 0int }),
    {
        let c = char_at(s, j);
        if is_digit(c) {
            assert(num_end(s@, j as int, point, dig) == num_end(s@, j + 1, point, true));
            j = j + 1;
            dig = true;
        } else if c == '.' && !point {
            assert(num_end(s@, j as int, point, dig) == num_end(s@, j + 1, true, dig));
            point = true;
            j = j + 1;
        } else if c == '.' {
            assert(num_end(s@, j as int, point, dig) == -1);
            state = 2;
        } else {
            assert(num_end(s@, j as int, point, dig) == (if dig {
                j as int
            } else {
                -1
            }));
            state = 1;
        }
    }
    proof {
        if state == 0 {
            assert(j == len);
            assert(num_end(s@, j as int, point, dig) == (if dig {
                j as int
            } else {
                -1
            }));
        }
        if state == 2 {
            assert(spec_match_num(s@) == 0);
        } else if dig {
            assert(num_end(s@, 0, false, false) == j as int);
            assert(spec_match_num(s@) == j as int);
        } else {
            assert(num_end(s@, 0, false, false) == -1);
            assert(spec_match_num(s@) == 0);
        }
    }
    if state == 2 {
        0
    } else if dig {
        j
    } else {
        0
    }
}

/// Scans for the unescaped `"` that closes a string-literal body starting at
/// `from`; returns the index one past it, or `None` if the buffer ends first.
pub(crate) fn strlit_scan(s: &str, from: usize, len: usize) -> (r: Option<usize>)
    requires
        from <= len,
        len as int == s@.len(),
    ensures
        match r {
            Option::Some(e) => strlit_end(s@, from as int) == e as int && from < e <= len,
            Option::None => strlit_end(s@, from as int) == -1,
        },
    decreases len - from,
{
    if from >= len {
        return None;
    }
    let c = char_at(s, from);
    if c == '\\' && from + 1 < len {
        strlit_scan(s, from + 2, len)
    } else if c == '"' {
        Some(from + 1)
    } else {
        strlit_scan(s, from + 1, len)
    }
}

/// Matches a string literal at the head of `s`, including both enclosing
/// quotes.  Returns the matched length, or 0 if `s` does not start with `"`
/// or the literal is unterminated.
pub fn match_strlit(s: &str) -> (n: usize)
    ensures
        n as int == spec_match_strlit(s@),
        n <= s@.len(),
{
    let len = s.unicode_len();
    if len < 1 {
        return 0;
    }
    let c0 = char_at(s, 0);
    if c0 != '"' {
        return 0;
    }
    match strlit_scan(s, 1, len) {
        Some(e) => e,
        None => 0,
    }
}

/// Matches a symbol at the head of `s`: a bracket matches as a singleton,
/// and otherwise a maximal run of characters that are not whitespace,
/// digits, alphanumerics, `_`, `"`, `.` or brackets forms one symbol.
pub fn match_symbol(s: &str) -> (n: usize)
    ensures
        n as int == spec_match_symbol(s@),
        n <= s@.len(),
{
    let len = s.unicode_len();
    if len < 1 {
        return 0;
    }
    let c0 = char_at(s, 0);
    if isdelim(c0) {
        return 1;
    }
    if is_digit(c0) || is_alnum(c0) || c0 == '_' || c0 == '"' || c0 == '.' {
        return 0;
    }
    let mut j: usize = 1;
    let mut stop = false;
    while !stop && j < len
        invariant
            1 <= j <= len,
            len as int == s@.len(),
            !stop ==> sym_run_end(s@, 1) == sym_run_end(s@, j as int),
            stop ==> sym_run_end(s@, 1) == j as int,
        decreases len - j + (if stop { 0int } else { 1int }),
    {
        let c = char_at(s, j);
        if !is_sym_stop(c) {
            assert(sym_run_end(s@, j as int) == sym_run_end(s@, j + 1));
            j = j + 1;
        } else {
            assert(sym_run_end(s@, j as int) == j as int);
            stop = true;
        }
    }
    proof {
        if !stop {
            assert(sym_run_end(s@, j as int) == j as int);
        }
    }
    j
}

/// Produces the token at the head of the (already trimmed) slice `s`,
/// together with the number of characters consumed, exactly as
/// [`spec_next_token`] describes.
pub fn next_token(s: &str) -> (r: (Token, usize))
    ensures
        r.0@ == spec_next_token(s@).0,
        r.1 as int == spec_next_token(s@).1,
        r.1 <= s@.len(),
        r.0 matches Token::Symbol(y) ==> y@.len() >= 1,
{
    let len = s.unicode_len();
    if len == 0 {
        return (Token::Newline, 0);
    }
    let c0 = char_at(s, 0);
    if is_alpha(c0) || c0 == '_' {
        let n = match_alphanum(s);
        proof {
            lemma_word_run_end(s@, 1);
            assert(s@.subrange(0, n as int) =~= s@.take(n as int));
        }
        let t = s.substring_char(0, n).to_owned();
        (Token::Alphanum(t), n)
    } else if c0 == '.' || is_digit(c0) {
        let n = match_num(s);
        if n > 0 {
            proof {
                lemma_num_end_bounds(s@, 0, false, false);
                assert(s@.subrange(0, n as int) =~= s@.take(n as int));
            }
            let mut alldig = true;
            let mut j: usize = 0;
            while j < n
                invariant
                    0 <= j <= n,
                    n <= s@.len(),
                    alldig ==> forall|t: int| 0 <= t < j ==> ascii_digit(s@[t]),
                    !alldig ==> !all_digits(s@.take(n as int)),
                decreases n - j,
            {
                let c = char_at(s, j);
                if !is_digit(c) {
                    proof {
                        assert(s@.take(n as int)[j as int] == s@[j as int]);
                    }
                    alldig = false;
                }
                j = j + 1;
            }
            proof {
                if alldig {
                    assert forall|t: int| 0 <= t < s@.take(n as int).len() implies ascii_digit(
                        s@.take(n as int)[t],
                    ) by {
                        assert(s@.take(n as int)[t] == s@[t]);
                    }
                    assert(all_digits(s@.take(n as int)));
                }
            }
            if alldig {
                match parse_dec(s, 0, n) {
                    Some(v) => (Token::Integer(v), n),
                    None => {
                        let t = s.substring_char(0, n).to_owned();
                        (Token::Float(t), n)
                    },
                }
            } else {
                let t = s.substring_char(0, n).to_owned();
                (Token::Float(t), n)
            }
        } else {
            proof {
                assert(s@.subrange(0, 1) =~= s@.take(1));
            }
            let t = s.substring_char(0, 1).to_owned();
            (Token::Symbol(t), 1)
        }
    } else if c0 == '"' {
        let n = match_strlit(s);
        if n > 0 {
            proof {
                lemma_strlit_end_bounds(s@, 1);
                assert(s@.subrange(0, n as int) =~= s@.take(n as int));
            }
            let t = s.substring_char(0, n).to_owned();
            (Token::Stringlit(t), n)
        } else {
            let t = s.to_owned();
            (Token::Verbatim(t), len)
        }
    } else {
        let n = match_symbol(s);
        if n > 0 {
            proof {
                lemma_sym_run_end(s@, 1);
                assert(s@.subrange(0, n as int) =~= s@.take(n as int));
            }
            let t = s.substring_char(0, n).to_owned();
            (Token::Symbol(t), n)
        } else {
            let t = s.to_owned();
            (Token::Verbatim(t), len)
        }
    }
}

/// One full step of the single-shot scanner on remaining text `rem` with
/// line-comment character `lc`: the token produced (`None` when only
/// whitespace remains) and the total number of characters consumed,
/// including the whitespace trimmed before and after the token.
pub open spec fn spec_scan(rem: Seq<char>, lc: char) -> (Option<TokView>, int) {
    let p = white_end(rem, 0);
    if p >= rem.len() {
        (None, rem.len() as int)
    } else {
        let sub = rem.subrange(p, rem.len() as int);
        let step = spec_next_token(sub);
        match step.0 {
            TokView::Sym(y) => if y.len() >= 1 && y[0] == lc {
                (Some(TokView::Verb(sub)), rem.len() as int)
            } else {
                (Some(step.0), white_end(rem, p + step.1))
            },
            _ => (Some(step.0), white_end(rem, p + step.1)),
        }
    }
}

pub proof fn lemma_spec_scan_bounds(rem: Seq<char>, lc: char)
    ensures
        0 <= spec_scan(rem, lc).1 <= rem.len(),
        spec_scan(rem, lc).0 is Some ==> spec_scan(rem, lc).1 >= 1,
        spec_scan(rem, lc).0 is None ==> spec_scan(rem, lc).1 == rem.len(),
{
    lemma_white_end(rem, 0);
    let p = white_end(rem, 0);
    if p < rem.len() {
        let sub = rem.subrange(p, rem.len() as int);
        lemma_next_token_bounds(sub);
        lemma_white_end(rem, p + spec_next_token(sub).1);
    }
}

/// The sequence of tokens a fresh scan of `rem` produces.
pub open spec fn scan_tokens(rem: Seq<char>, lc: char) -> Seq<TokView>
    decreases rem.len() when true via scan_tokens_decreases
{
    let step = spec_scan(rem, lc);
    match step.0 {
        None => Seq::empty(),
        Some(tv) => seq![tv] + scan_tokens(rem.subrange(step.1, rem.len() as int), lc),
    }
}

#[via_fn]
proof fn scan_tokens_decreases(rem: Seq<char>, lc: char) {
    lemma_spec_scan_bounds(rem, lc);
}

/// The concatenation of the text consumed by every step of a fresh scan of
/// `rem`: the literal text of each token plus all skipped whitespace.
pub open spec fn scan_text(rem: Seq<char>, lc: char) -> Seq<char>
    decreases rem.len() when true via scan_text_decreases
{
    let step = spec_scan(rem, lc);
    match step.0 {
        None => rem.subrange(0, step.1),
        Some(_) => rem.subrange(0, step.1) + scan_text(rem.subrange(step.1, rem.len() as int), lc),
    }
}

#[via_fn]
proof fn scan_text_decreases(rem: Seq<char>, lc: char) {
    lemma_spec_scan_bounds(rem, lc);
}

/// A [`Token`] iterator over a given `&str`, which it copies and scans from
/// the front; leading whitespace is trimmed at construction and around every
/// produced token.
pub struct Str_tokenizer {
    text: String,
    pos: usize,
    line_comment: char,
}

impl Str_tokenizer {
    /// The buffer being scanned.
    pub closed spec fn buffer(&self) -> Seq<char> {
        self.text@
    }

    /// The text not yet consumed.
    pub closed spec fn remaining(&self) -> Seq<char> {
        self.text@.subrange(self.pos as int, self.text@.len() as int)
    }

    /// The current line-comment character.
    pub closed spec fn lc(&self) -> char {
        self.line_comment
    }

    pub closed spec fn wf(&self) -> bool {
        self.pos as int <= self.text@.len()
    }

    /// Creates a tokenizer over `s`, with `#` as the default line-comment
    /// character and the leading whitespace of `s` already trimmed.
    pub fn new(s: &str) -> (r: Str_tokenizer)
        ensures
            r.wf(),
            r.buffer() == s@,
            r.remaining() == s@.subrange(white_end(s@, 0), s@.len() as int),
            r.lc() == '#',
    {
        let len = s.unicode_len();
        let p = white_to(s, 0, len);
        Str_tokenizer { text: s.to_owned(), pos: p, line_comment: '#' }
    }

    /// Returns the untokenized remainder of the buffer.
    pub fn rest(&self) -> (r: &str)
        requires
            self.wf(),
        ensures
            r@ == self.remaining(),
    {
        let len = self.text.as_str().unicode_len();
        self.text.as_str().substring_char(self.pos, len)
    }

    /// Sets the character that designates a line comment: when the next
    /// symbol token starts with it, the rest of the buffer is emitted as one
    /// Verbatim token.  The default is `#`.
    pub fn set_line_comment(&mut self, c: char)
        ensures
            final(self).buffer() == old(self).buffer(),
            final(self).remaining() == old(self).remaining(),
            final(self).wf() == old(self).wf(),
            final(self).lc() == c,
    {
        self.line_comment = c;
    }

    /// Disables recognition of the line-comment character (no symbol can
    /// start with a whitespace character).
    pub fn no_line_comment(&mut self)
        ensures
            final(self).buffer() == old(self).buffer(),
            final(self).remaining() == old(self).remaining(),
            final(self).wf() == old(self).wf(),
            final(self).lc() == ' ',
    {
        self.line_comment = ' ';
    }

    /// Resets the tokenizer to scan a new buffer from its start.
    pub fn reset(&mut self, s: &str)
        ensures
            final(self).wf(),
            final(self).buffer() == s@,
            final(self).remaining() == s@,
            final(self).lc() == old(self).lc(),
    {
        self.text = s.to_owned();
        self.pos = 0;
        proof {
            assert(final(self).remaining() =~= s@);
        }
    }

    /// Produces the next token, or `None` when only whitespace (or nothing)
    /// remains, exactly as [`spec_scan`] describes.
    pub fn next(&mut self) -> (r: Option<Token>)
        requires
            old(self).wf(),
        ensures
            final(self).wf(),
            final(self).buffer() == old(self).buffer(),
            final(self).lc() == old(self).lc(),
            final(self).remaining() == old(self).remaining().subrange(
                spec_scan(old(self).remaining(), old(self).lc()).1,
                old(self).remaining().len() as int,
            ),
            r is None <==> spec_scan(old(self).remaining(), old(self).lc()).0 is None,
            r matches Some(t) ==> spec_scan(old(self).remaining(), old(self).lc()).0 == Some(t@),
    {
        let ghost rem = self.remaining();
        let ghost lc = self.line_comment;
        let len = self.text.as_str().unicode_len();
        let remst = self.text.as_str().substring_char(self.pos, len);
        let rlen = len - self.pos;
        assert(remst@ == rem);
        let p = white_to(remst, 0, rlen);
        if p == rlen {
            self.pos = len;
            proof {
                assert(final(self).remaining() =~= rem.subrange(rlen as int, rlen as int));
            }
            return None;
        }
        let sub = remst.substring_char(p, rlen);
        assert(sub@ == rem.subrange(p as int, rem.len() as int));
        let (tok, ind) = next_token(sub);
        let mut comment = false;
        match &tok {
            Token::Symbol(y) => {
                let y0 = char_at(y.as_str(), 0);
                if y0 == self.line_comment {
                    comment = true;
                }
            },
            _ => {},
        }
        if comment {
            let verb = sub.to_owned();
            self.pos = len;
            proof {
                assert(spec_scan(rem, lc).0 == Some(TokView::Verb(sub@)));
                assert(spec_scan(rem, lc).1 == rem.len() as int);
                assert(final(self).remaining() =~= rem.subrange(rem.len() as int,
                    rem.len() as int));
            }
            return Some(Token::Verbatim(verb));
        }
        let q = white_to(remst, p + ind, rlen);
        proof {
            assert(spec_scan(rem, lc).0 == Some(tok@));
            assert(spec_scan(rem, lc).1 == q as int);
        }
        self.pos = self.pos + q;
        proof {
            assert(final(self).remaining() =~= rem.subrange(q as int, rem.len() as int));
        }
        Some(tok)
    }
}

} // verus!

// ---------------------------------------------------------------------------
// Laws of the single-shot scanner.
// ---------------------------------------------------------------------------

verus! {

/// Whether `lex` is the literal text a token was produced from.
pub open spec fn tok_text(t: TokView, lex: Seq<char>) -> bool {
    match t {
        TokView::Int(v) => lex.len() >= 1 && all_digits(lex) && v == dec_val(lex),
        TokView::Fl(y) => y == lex,
        TokView::Sym(y) => y == lex,
        TokView::Alpha(y) => y == lex,
        TokView::Kw(y) => y == lex,
        TokView::Strlit(y) => y == lex,
        TokView::Verb(y) => y == lex,
        TokView::NL => lex.len() == 0,
        TokView::Nothing => lex.len() == 0,
        TokView::ErrTok(_) => false,
    }
}

/// The token of one matching step carries exactly the text it consumed.
pub proof fn lemma_next_token_text(s: Seq<char>)
    requires
        s.len() >= 1,
    ensures
        tok_text(spec_next_token(s).0, s.take(spec_next_token(s).1)),
{
    lemma_next_token_bounds(s);
    if alpha_char(s[0]) || s[0] == '_' {
    } else if s[0] == '.' || ascii_digit(s[0]) {
        let n = spec_match_num(s);
        if n > 0 {
            lemma_num_end_bounds(s, 0, false, false);
        }
    } else if s[0] == '"' {
        let n = spec_match_strlit(s);
        if n == 0 {
            assert(spec_next_token(s).0 == TokView::Verb(s));
            assert(spec_next_token(s).1 == s.len() as int);
            assert(s.take(s.len() as int) =~= s);
            assert(tok_text(spec_next_token(s).0, s.take(spec_next_token(s).1)));
        }
    } else {
        let n = spec_match_symbol(s);
        if n == 0 {
            assert(spec_next_token(s).0 == TokView::Verb(s));
            assert(spec_next_token(s).1 == s.len() as int);
            assert(s.take(s.len() as int) =~= s);
            assert(tok_text(spec_next_token(s).0, s.take(spec_next_token(s).1)));
        }
    }
}

/// Law (round trip, one step): a scan step consumes exactly the whitespace
/// it skips plus the literal text of the token it produces, in that order,
/// possibly followed by more skipped whitespace.
pub proof fn lemma_round_trip_step(rem: Seq<char>, lc: char)
    ensures
        ({
            let p = white_end(rem, 0);
            let step = spec_scan(rem, lc);
            &&& all_white(rem, 0, p)
            &&& (step.0 is None ==> step.1 == rem.len() && all_white(rem, 0, step.1))
            &&& (step.0 is Some ==> exists|m: int|
                p <= m <= step.1 && tok_text(step.0->0, rem.subrange(p, m)) && all_white(
                    rem,
                    m,
                    step.1,
                ))
        }),
{
    lemma_white_end(rem, 0);
    let p = white_end(rem, 0);
    let step = spec_scan(rem, lc);
    if p < rem.len() {
        let sub = rem.subrange(p, rem.len() as int);
        let tn = spec_next_token(sub);
        lemma_next_token_bounds(sub);
        lemma_next_token_text(sub);
        let comment = match tn.0 {
            TokView::Sym(y) => y.len() >= 1 && y[0] == lc,
            _ => false,
        };
        if comment {
            let m = rem.len() as int;
            assert(rem.subrange(p, m) == sub);
            assert(tok_text(TokView::Verb(sub), rem.subrange(p, m)));
            assert(all_white(rem, m, step.1));
            assert(p <= m <= step.1 && tok_text(step.0->0, rem.subrange(p, m)) && all_white(
                rem,
                m,
                step.1,
            ));
        } else {
            let m = p + tn.1;
            lemma_white_end(rem, m);
            assert(rem.subrange(p, m) =~= sub.take(tn.1));
            assert(step.1 == white_end(rem, m));
            assert(p <= m <= step.1 && tok_text(step.0->0, rem.subrange(p, m)) && all_white(
                rem,
                m,
                step.1,
            ));
        }
    }
}

/// Law (round trip): concatenating the text consumed by every step of a
/// fresh scan — each token's literal text plus all skipped whitespace —
/// reconstructs the scanned buffer exactly, for any configuration.
pub proof fn lemma_round_trip(rem: Seq<char>, lc: char)
    ensures
        scan_text(rem, lc) == rem,
    decreases rem.len(),
{
    lemma_spec_scan_bounds(rem, lc);
    let step = spec_scan(rem, lc);
    if step.0 is None {
        assert(rem.subrange(0, step.1) =~= rem);
    } else {
        lemma_round_trip(rem.subrange(step.1, rem.len() as int), lc);
        assert(rem.subrange(0, step.1) + rem.subrange(step.1, rem.len() as int) =~= rem);
    }
}

/// Law (idempotence): scanning is a pure function of the remaining text and
/// the line-comment configuration, so re-scanning the same buffer with a
/// fresh instance yields the identical token sequence.
pub proof fn lemma_rescan_idempotent(rem1: Seq<char>, lc1: char, rem2: Seq<char>, lc2: char)
    requires
        rem1 == rem2,
        lc1 == lc2,
    ensures
        scan_tokens(rem1, lc1) == scan_tokens(rem2, lc2),
{
}

/// Law: an input consisting solely of decimal digits, whose value fits in
/// an `i64`, scans to exactly one Integer token holding that value,
/// consuming the whole digit run.
pub proof fn lemma_digits_scan_to_integer(s: Seq<char>, lc: char)
    requires
        s.len() >= 1,
        all_digits(s),
        dec_val(s) <= i64::MAX,
    ensures
        spec_scan(s, lc).0 == Some(TokView::Int(dec_val(s))),
        spec_scan(s, lc).1 == s.len(),
        scan_tokens(s, lc) == seq![TokView::Int(dec_val(s))],
{
    assert(ascii_digit(s[0]));
    assert(!white_char(s[0]));
    assert(white_end(s, 0) == 0);
    let sub = s.subrange(0, s.len() as int);
    assert(sub =~= s);
    assert(!(alpha_char(s[0]) || s[0] == '_'));
    lemma_num_end_digits(s, 0, false, false);
    let n = spec_match_num(s);
    assert(n == s.len());
    assert(s.take(n) =~= s);
    assert(spec_next_token(s).0 == TokView::Int(dec_val(s)));
    assert(spec_next_token(s).1 == n);
    assert(white_end(s, n) == n);
    assert(spec_scan(s, lc).0 == Some(TokView::Int(dec_val(s))));
    assert(spec_scan(s, lc).1 == s.len());
    let tail = s.subrange(s.len() as int, s.len() as int);
    assert(tail.len() == 0);
    assert(white_end(tail, 0) == 0);
    assert(spec_scan(tail, lc).0 is None);
    assert(scan_tokens(tail, lc) == Seq::<TokView>::empty());
    assert(scan_tokens(s, lc) =~= seq![TokView::Int(dec_val(s))]);
}

/// Law: an input of the form `X.Y`, where `X` and `Y` are digit runs and
/// `Y` is non-empty, scans to exactly one Float token carrying the whole
/// numeral text.
pub proof fn lemma_digit_point_digit_scans_to_float(x: Seq<char>, y: Seq<char>, lc: char)
    requires
        all_digits(x),
        all_digits(y),
        y.len() >= 1,
    ensures
        ({
            let s = x + seq!['.'] + y;
            &&& spec_scan(s, lc).0 == Some(TokView::Fl(s))
            &&& spec_scan(s, lc).1 == s.len()
            &&& scan_tokens(s, lc) == seq![TokView::Fl(s)]
        }),
{
    let s = x + seq!['.'] + y;
    let xl = x.len() as int;
    assert(s.len() == xl + 1 + y.len());
    assert(s[xl] == '.');
    assert forall|t: int| 0 <= t < xl implies ascii_digit(#[trigger] s[t]) by {
        assert(s[t] == x[t]);
    }
    assert forall|t: int| xl + 1 <= t < s.len() implies ascii_digit(#[trigger] s[t]) by {
        assert(s[t] == y[t - xl - 1]);
    }
    assert(s.len() >= 1);
    assert(s[0] == '.' || ascii_digit(s[0]));
    assert(!white_char(s[0]));
    assert(white_end(s, 0) == 0);
    let sub = s.subrange(0, s.len() as int);
    assert(sub =~= s);
    assert(!(alpha_char(s[0]) || s[0] == '_'));
    crate::numerals::lemma_num_end_digit_run(s, 0, xl, false, false);
    assert(num_end(s, 0, false, false) == num_end(s, xl, false, xl > 0));
    assert(num_end(s, xl, false, xl > 0) == num_end(s, xl + 1, true, xl > 0));
    crate::numerals::lemma_num_end_digit_run(s, xl + 1, s.len() as int, true, xl > 0);
    assert(num_end(s, xl + 1, true, xl > 0) == num_end(s, s.len() as int, true, true));
    assert(num_end(s, s.len() as int, true, true) == s.len());
    let n = spec_match_num(s);
    assert(n == s.len());
    assert(s.take(n) =~= s);
    assert(!ascii_digit(s[xl]));
    assert(!all_digits(s.take(n)));
    assert(spec_next_token(s).0 == TokView::Fl(s));
    assert(spec_next_token(s).1 == n);
    assert(white_end(s, n) == n);
    assert(spec_scan(s, lc).0 == Some(TokView::Fl(s)));
    assert(spec_scan(s, lc).1 == s.len());
    let tail = s.subrange(s.len() as int, s.len() as int);
    assert(white_end(tail, 0) == 0);
    assert(spec_scan(tail, lc).0 is None);
    assert(scan_tokens(tail, lc) == Seq::<TokView>::empty());
    assert(scan_tokens(s, lc) =~= seq![TokView::Fl(s)]);
}

/// Law: when the numeral rule fails at a digit or `.` (a second `.` before
/// the run ends), the match falls back to a single-character symbol.
pub proof fn lemma_failed_numeral_single_symbol(s: Seq<char>)
    requires
        s.len() >= 1,
        s[0] == '.' || ascii_digit(s[0]),
        num_end(s, 0, false, false) == -1,
    ensures
        spec_next_token(s).0 == TokView::Sym(s.take(1)),
        spec_next_token(s).1 == 1,
{
    assert(!(alpha_char(s[0]) || s[0] == '_'));
}

/// Law: a bracket character always scans as a singleton Symbol token, no
/// matter what else follows it (provided it is not the configured
/// line-comment character, which would turn the rest into a comment).
pub proof fn lemma_bracket_singleton(s: Seq<char>, lc: char)
    requires
        s.len() >= 1,
        delim_char(s[0]),
        s[0] != lc,
    ensures
        spec_scan(s, lc).0 == Some(TokView::Sym(s.take(1))),
{
    assert(!white_char(s[0]));
    assert(white_end(s, 0) == 0);
    let sub = s.subrange(0, s.len() as int);
    assert(sub =~= s);
    assert(!(alpha_char(s[0]) || s[0] == '_'));
    assert(!(s[0] == '.' || ascii_digit(s[0])));
    assert(s[0] != '"');
    assert(spec_match_symbol(s) == 1);
    assert(spec_next_token(s).0 == TokView::Sym(s.take(1)));
    assert(s.take(1).len() == 1 && s.take(1)[0] == s[0]);
}

} // verus!
