//! The stateful line-oriented scanner: it tokenizes input handed to it line
//! by line, keeping a mode (normal, inside a multi-line comment, inside a
//! string literal) that persists across line boundaries together with a
//! partial-content accumulator, and classifies alphanumeric tokens against a
//! caller-supplied keyword set.
//!
//! Reading the lines themselves (from a file or any other source) is the
//! caller's concern: a [`File_tokenizer`] is constructed from the lines, as
//! a line-reading loop would hand them over, each with its trailing newline.
//! Reaching the end of the input while a literal or comment is still open is
//! reported as an error token naming the construct, and the line on which it
//! started stays available through [`File_tokenizer::pending_since`].
//!
//! The behaviour of [`File_tokenizer::next`] is pinned down by the spec
//! function [`spec_ft_next`] over the scanner's view [`FtView`].

use vstd::prelude::*;
use vstd::string::StrSliceExecFns;
use vstd::string::StringExecFns;
use crate::chars::alpha_char;
use crate::chars::alnum_char;
use crate::chars::white_char;
use crate::chars::ascii_digit;
use crate::chars::white_end;
use crate::chars::lemma_white_end;
use crate::chars::nonwhite_end;
use crate::chars::lemma_nonwhite_end;
use crate::chars::trim_end_pos;
use crate::chars::lemma_trim_end_lb;
use crate::chars::occurs_at;
use crate::chars::find_sub_from;
use crate::chars::lemma_find_sub_from;
use crate::chars::ws_pieces;
use crate::chars::is_alpha;
use crate::chars::is_white;
use crate::chars::is_digit;
use crate::chars::char_at;
use crate::numerals::all_digits;
use crate::numerals::dec_val;
use crate::numerals::num_end;
use crate::numerals::lemma_num_end_bounds;
use crate::numerals::parse_dec;
use crate::single::word_run_end;
use crate::single::lemma_word_run_end;
use crate::single::strlit_end;
use crate::single::lemma_strlit_end_bounds;
use crate::single::strlit_scan;
use crate::single::is_word;
use crate::token::Token;
use crate::token::TokView;
use crate::zero_copy::white_run_to;
use crate::zero_copy::nonwhite_run_to;
use crate::zero_copy::occurs_exec;
use crate::zero_copy::find_sub_exec;
use crate::zero_copy::vec_has_char;

verus! {

/// The accumulation mode of the line-oriented scanner: scanning normally,
/// inside a multi-line comment, or inside a string literal, the latter two
/// remembering the line they started on.
#[derive(PartialEq, Eq, Copy, Clone, Debug)]
pub enum Mode {
    normal,
    comment(usize),
    stringlit(usize),
}

/// The mathematical view of a [`Mode`].
pub enum ModeV {
    N,
    C(int),
    S(int),
}

impl View for Mode {
    type V = ModeV;

    open spec fn view(&self) -> ModeV {
        match self {
            Mode::normal => ModeV::N,
            Mode::comment(n) => ModeV::C(*n as int),
            Mode::stringlit(n) => ModeV::S(*n as int),
        }
    }
}

/// Whether a mode is the comment mode.
pub fn iscomment(m: &Mode) -> (r: bool)
    ensures
        r == (m@ matches ModeV::C(_)),
{
    match m {
        Mode::comment(_) => true,
        _ => false,
    }
}

/// Whether a mode is the string-literal mode.
pub fn isstringlit(m: &Mode) -> (r: bool)
    ensures
        r == (m@ matches ModeV::S(_)),
{
    match m {
        Mode::stringlit(_) => true,
        _ => false,
    }
}

/// The view of a [`File_tokenizer`]: the lines it scans, its position and
/// accumulation state, and its whole configuration.
pub struct FtView {
    pub lines: Seq<Seq<char>>,
    pub li: int,
    pub line: Seq<char>,
    pub linenum: int,
    pub column: int,
    pub mode: ModeV,
    pub accum: Seq<char>,
    pub keywords: Seq<Seq<char>>,
    pub singletons: Seq<char>,
    pub line_comment: Seq<char>,
    pub begin_comment: Seq<char>,
    pub end_comment: Seq<char>,
    pub keep_comments: bool,
    pub keep_newline: bool,
}

/// Well-formedness: the column lies in the current line, the line counter
/// tracks the lines consumed, the accumulator is non-empty only outside the
/// normal mode, the comment markers are set, and the brackets are singleton
/// symbols.
pub open spec fn ft_wf(v: FtView) -> bool {
    &&& 0 <= v.column <= v.line.len()
    &&& 0 <= v.linenum <= v.li <= v.lines.len()
    &&& v.lines.len() < usize::MAX
    &&& (v.mode matches ModeV::N ==> v.accum.len() == 0)
    &&& v.begin_comment.len() > 0
    &&& v.end_comment.len() > 0
    &&& v.singletons.contains('(') && v.singletons.contains(')') && v.singletons.contains('[')
        && v.singletons.contains(']') && v.singletons.contains('{') && v.singletons.contains('}')
}

/// A character that ends (and cannot start) a symbol run of the
/// line-oriented scanner: whitespace, digits, alphanumerics, `_`, `"`, `.`
/// and every configured singleton.
pub open spec fn fsym_stop(c: char, singles: Seq<char>) -> bool {
    white_char(c) || ascii_digit(c) || alnum_char(c) || c == '_' || c == '"' || c == '.'
        || singles.contains(c)
}

/// The end of the run of non-stopping symbol characters starting at `i`.
pub open spec fn fsym_run_end(s: Seq<char>, i: int, singles: Seq<char>) -> int
    decreases s.len() - i when 0 <= i <= s.len()
{
    if i >= s.len() {
        i
    } else if !fsym_stop(s[i], singles) {
        fsym_run_end(s, i + 1, singles)
    } else {
        i
    }
}

pub proof fn lemma_fsym_run_end(s: Seq<char>, i: int, singles: Seq<char>)
    requires
        0 <= i <= s.len(),
    ensures
        i <= fsym_run_end(s, i, singles) <= s.len(),
    decreases s.len() - i,
{
    if i < s.len() && !fsym_stop(s[i], singles) {
        lemma_fsym_run_end(s, i + 1, singles);
    }
}

/// The length matched by the symbol rule of the line-oriented scanner at
/// position `p` of `line`: a configured singleton matches alone, a stopping
/// character matches nothing, and anything else starts a maximal run.
pub open spec fn spec_file_match_symbol(line: Seq<char>, p: int, singles: Seq<char>) -> int {
    if p >= line.len() {
        0
    } else if singles.contains(line[p]) {
        1
    } else if ascii_digit(line[p]) || alnum_char(line[p]) || line[p] == '_' || line[p] == '"'
        || line[p] == '.' {
        0
    } else {
        fsym_run_end(line, p + 1, singles) - p
    }
}

/// Whether the symbol text `y` begins with the line-comment marker `lc`.
pub open spec fn starts_line_comment(y: Seq<char>, lc: Seq<char>) -> bool {
    lc.len() > 0 && y.len() >= lc.len() && y.take(lc.len() as int) == lc
}

/// One call of the line-oriented scanner on view `v`: the token produced
/// (`None` at end of input in normal mode) and the state afterwards.  The
/// scanner refills its line buffer from `lines` on demand, skips leading
/// whitespace, and matches according to its mode: a pending comment or
/// string literal is continued (accumulating across lines), and otherwise
/// comments, string literals, alphanumeric tokens (reclassified as keywords
/// when configured), numerals and symbols are matched in that order.
pub open spec fn spec_ft_next(v: FtView) -> (Option<TokView>, FtView)
    decreases v.lines.len() - v.li, v.line.len() - v.column + 1
        when ft_wf(v) via spec_ft_next_decreases
{
    let line = v.line;
    let llen = line.len() as int;
    if v.column >= llen {
        if v.li < v.lines.len() {
            spec_ft_next(
                FtView {
                    line: v.lines[v.li],
                    li: v.li + 1,
                    linenum: v.linenum + 1,
                    column: 0,
                    ..v
                },
            )
        } else {
            match v.mode {
                ModeV::S(n) => (Some(TokView::ErrTok("unclosed string literal"@)), v),
                ModeV::C(n) => (Some(TokView::ErrTok("unclosed comment"@)), v),
                ModeV::N => (None, v),
            }
        }
    } else {
        let p = if (v.mode matches ModeV::N) {
            white_end(line, v.column)
        } else {
            v.column
        };
        if (v.mode matches ModeV::C(_)) || (v.mode matches ModeV::N && occurs_at(
            line,
            v.begin_comment,
            p,
        )) {
            let startline = match v.mode {
                ModeV::C(n) => n,
                _ => v.linenum,
            };
            let e = find_sub_from(line, p, v.end_comment);
            if e >= 0 {
                let np = e + v.end_comment.len() as int;
                let text = v.accum + line.subrange(p, np);
                let v2 = FtView { column: np, mode: ModeV::N, accum: Seq::empty(), ..v };
                if v.keep_comments {
                    (Some(TokView::Verb(text)), v2)
                } else {
                    spec_ft_next(v2)
                }
            } else {
                spec_ft_next(
                    FtView {
                        column: llen,
                        mode: ModeV::C(startline),
                        accum: v.accum + line.subrange(p, llen),
                        ..v
                    },
                )
            }
        } else if (v.mode matches ModeV::S(_)) || (p < llen && line[p] == '"') {
            let startline = match v.mode {
                ModeV::S(n) => n,
                _ => v.linenum,
            };
            let from = if v.mode matches ModeV::S(_) {
                p
            } else {
                p + 1
            };
            let e = strlit_end(line, from);
            if e >= 0 {
                let text = v.accum + line.subrange(p, e);
                let v2 = FtView { column: e, mode: ModeV::N, accum: Seq::empty(), ..v };
                (Some(TokView::Strlit(text)), v2)
            } else {
                spec_ft_next(
                    FtView {
                        column: llen,
                        mode: ModeV::S(startline),
                        accum: v.accum + line.subrange(p, llen),
                        ..v
                    },
                )
            }
        } else if p >= llen {
            let v2 = FtView { column: llen, ..v };
            if v.keep_newline {
                (Some(TokView::NL), v2)
            } else {
                spec_ft_next(v2)
            }
        } else if alpha_char(line[p]) || line[p] == '_' {
            let e = word_run_end(line, p + 1);
            let y = line.subrange(p, e);
            let v2 = FtView { column: e, ..v };
            if v.keywords.contains(y) {
                (Some(TokView::Kw(y)), v2)
            } else {
                (Some(TokView::Alpha(y)), v2)
            }
        } else if line[p] == '.' || ascii_digit(line[p]) {
            let e = num_end(line, p, false, false);
            if e >= 0 {
                let y = line.subrange(p, e);
                let v2 = FtView { column: e, ..v };
                if all_digits(y) && dec_val(y) <= i64::MAX {
                    (Some(TokView::Int(dec_val(y))), v2)
                } else {
                    (Some(TokView::Fl(y)), v2)
                }
            } else {
                let y = line.subrange(p, p + 1);
                if starts_line_comment(y, v.line_comment) {
                    let v2 = FtView { column: llen, ..v };
                    if v.keep_comments {
                        (Some(TokView::Verb(line.subrange(p, llen))), v2)
                    } else {
                        spec_ft_next(v2)
                    }
                } else {
                    (Some(TokView::Sym(y)), FtView { column: p + 1, ..v })
                }
            }
        } else {
            let n = spec_file_match_symbol(line, p, v.singletons);
            if n > 0 {
                let y = line.subrange(p, p + n);
                if starts_line_comment(y, v.line_comment) {
                    let v2 = FtView { column: llen, ..v };
                    if v.keep_comments {
                        (Some(TokView::Verb(line.subrange(p, llen))), v2)
                    } else {
                        spec_ft_next(v2)
                    }
                } else {
                    (Some(TokView::Sym(y)), FtView { column: p + n, ..v })
                }
            } else {
                spec_ft_next(FtView { column: llen, ..v })
            }
        }
    }
}

#[via_fn]
proof fn spec_ft_next_decreases(v: FtView) {
    let line = v.line;
    let llen = line.len() as int;
    if v.column < llen {
        lemma_white_end(line, v.column);
        let p = if (v.mode matches ModeV::N) {
            white_end(line, v.column)
        } else {
            v.column
        };
        if (v.mode matches ModeV::C(_)) || (v.mode matches ModeV::N && occurs_at(
            line,
            v.begin_comment,
            p,
        )) {
            lemma_find_sub_from(line, p, v.end_comment);
        } else if (v.mode matches ModeV::S(_)) || (p < llen && line[p] == '"') {
            let from = if v.mode matches ModeV::S(_) {
                p
            } else {
                p + 1
            };
            if from <= llen {
                lemma_strlit_end_bounds(line, from);
            }
        } else if p >= llen {
        } else if alpha_char(line[p]) || line[p] == '_' {
        } else if line[p] == '.' || ascii_digit(line[p]) {
        } else {
            lemma_fsym_run_end(line, p + 1, v.singletons);
        }
    }
}

/// The scanner's step preserves well-formedness and the configuration, and
/// ends the scan (both line buffer and line list exhausted) exactly when it
/// yields `None`.
pub proof fn lemma_ft_next_wf(v: FtView)
    requires
        ft_wf(v),
    ensures
        ft_wf(spec_ft_next(v).1),
        spec_ft_next(v).1.lines == v.lines,
        spec_ft_next(v).1.keywords == v.keywords,
        spec_ft_next(v).1.singletons == v.singletons,
        spec_ft_next(v).1.line_comment == v.line_comment,
        spec_ft_next(v).1.begin_comment == v.begin_comment,
        spec_ft_next(v).1.end_comment == v.end_comment,
        spec_ft_next(v).1.keep_comments == v.keep_comments,
        spec_ft_next(v).1.keep_newline == v.keep_newline,
        spec_ft_next(v).0 is None ==> spec_ft_next(v).1.li == v.lines.len() && spec_ft_next(
            v,
        ).1.mode matches ModeV::N,
        (spec_ft_next(v).0 matches Some(t) && !(t matches TokView::ErrTok(_))) ==> spec_ft_next(
            v,
        ).1.li > v.li || (spec_ft_next(v).1.li == v.li && spec_ft_next(v).1.line == v.line
            && spec_ft_next(v).1.column > v.column),
        spec_ft_next(v).1.li >= v.li,
    decreases v.lines.len() - v.li, v.line.len() - v.column + 1,
{
    let line = v.line;
    let llen = line.len() as int;
    if v.column >= llen {
        if v.li < v.lines.len() {
            lemma_ft_next_wf(
                FtView {
                    line: v.lines[v.li],
                    li: v.li + 1,
                    linenum: v.linenum + 1,
                    column: 0,
                    ..v
                },
            );
        }
    } else {
        lemma_white_end(line, v.column);
        let p = if (v.mode matches ModeV::N) {
            white_end(line, v.column)
        } else {
            v.column
        };
        if (v.mode matches ModeV::C(_)) || (v.mode matches ModeV::N && occurs_at(
            line,
            v.begin_comment,
            p,
        )) {
            let startline = match v.mode {
                ModeV::C(n) => n,
                _ => v.linenum,
            };
            lemma_find_sub_from(line, p, v.end_comment);
            let e = find_sub_from(line, p, v.end_comment);
            if e >= 0 {
                let np = e + v.end_comment.len() as int;
                if !v.keep_comments {
                    lemma_ft_next_wf(
                        FtView { column: np, mode: ModeV::N, accum: Seq::empty(), ..v },
                    );
                }
            } else {
                lemma_ft_next_wf(
                    FtView {
                        column: llen,
                        mode: ModeV::C(startline),
                        accum: v.accum + line.subrange(p, llen),
                        ..v
                    },
                );
            }
        } else if (v.mode matches ModeV::S(_)) || (p < llen && line[p] == '"') {
            let startline = match v.mode {
                ModeV::S(n) => n,
                _ => v.linenum,
            };
            let from = if v.mode matches ModeV::S(_) {
                p
            } else {
                p + 1
            };
            lemma_strlit_end_bounds(line, from);
            let e = strlit_end(line, from);
            if e < 0 {
                lemma_ft_next_wf(
                    FtView {
                        column: llen,
                        mode: ModeV::S(startline),
                        accum: v.accum + line.subrange(p, llen),
                        ..v
                    },
                );
            }
        } else if p >= llen {
            if !v.keep_newline {
                lemma_ft_next_wf(FtView { column: llen, ..v });
            }
        } else if alpha_char(line[p]) || line[p] == '_' {
            lemma_word_run_end(line, p + 1);
        } else if line[p] == '.' || ascii_digit(line[p]) {
            lemma_num_end_bounds(line, p, false, false);
            let e = num_end(line, p, false, false);
            if e < 0 {
                let y = line.subrange(p, p + 1);
                if starts_line_comment(y, v.line_comment) && !v.keep_comments {
                    lemma_ft_next_wf(FtView { column: llen, ..v });
                }
            }
        } else {
            lemma_fsym_run_end(line, p + 1, v.singletons);
            let n = spec_file_match_symbol(line, p, v.singletons);
            if n > 0 {
                let y = line.subrange(p, p + n);
                if starts_line_comment(y, v.line_comment) && !v.keep_comments {
                    lemma_ft_next_wf(FtView { column: llen, ..v });
                }
            } else {
                lemma_ft_next_wf(FtView { column: llen, ..v });
            }
        }
    }
}

} // verus!

verus! {

/// The end of the word-character run of `s` starting at `from`.
fn word_run_to(s: &str, from: usize, len: usize) -> (r: usize)
    requires
        from <= len,
        len as int == s@.len(),
    ensures
        r as int == word_run_end(s@, from as int),
        from <= r <= len,
    decreases len - from,
{
    if from >= len {
        return from;
    }
    let c = char_at(s, from);
    if is_word(c) {
        word_run_to(s, from + 1, len)
    } else {
        from
    }
}

/// The end of the numeral starting at `from`, or `None` when the numeral
/// rule fails there.
fn num_scan_to(s: &str, from: usize, len: usize) -> (r: Option<usize>)
    requires
        from <= len,
        len as int == s@.len(),
    ensures
        match r {
            Option::Some(e) => num_end(s@, from as int, false, false) == e as int && from <= e
                <= len,
            Option::None => num_end(s@, from as int, false, false) == -1,
        },
{
    let mut j: usize = from;
    let mut point = false;
    let mut dig = false;
    let mut state: u8 = 0;
    while state == 0 && j < len
        invariant
            from <= j <= len,
            len as int == s@.len(),
            state == 0 || state == 1 || state == 2,
            state == 0 ==> num_end(s@, from as int, false, false) == num_end(
                s@,
                j as int,
                point,
                dig,
            ),
            state == 1 ==> num_end(s@, from as int, false, false) == (if dig {
                j as int
            } else {
                -1
            }),
            state == 2 ==> num_end(s@, from as int, false, false) == -1,
        decreases len - j + (if state == 0 { 1int } else { 0int }),
    {
        let c = char_at(s, j);
        if is_digit(c) {
            assert(num_end(s@, j as int, point, dig) == num_end(s@, j + 1, point, true));
            j = j + 1;
            dig = true;
        } else if c == '.' && !point {
            assert(num_end(s@, j as int, point, dig) == num_end(s@, j + 1, true, dig));
            point = true;
            j = j + 1;
        } else if c == '.' {
            assert(num_end(s@, j as int, point, dig) == -1);
            state = 2;
        } else {
            assert(num_end(s@, j as int, point, dig) == (if dig {
                j as int
            } else {
                -1
            }));
            state = 1;
        }
    }
    proof {
        if state == 0 {
            assert(num_end(s@, j as int, point, dig) == (if dig {
                j as int
            } else {
                -1
            }));
        }
    }
    if state == 2 {
        None
    } else if dig {
        Some(j)
    } else {
        None
    }
}

/// Decides `fsym_stop` against the configured singleton set.
fn is_fsym_stop(c: char, singles: &Vec<char>) -> (r: bool)
    ensures
        r == fsym_stop(c, singles@),
{
    is_white(c) || is_digit(c) || crate::chars::is_alnum(c) || c == '_' || c == '"' || c == '.'
        || vec_has_char(singles, c)
}

/// The end of the symbol-character run of `s` starting at `from`.
fn fsym_run_to(s: &str, from: usize, len: usize, singles: &Vec<char>) -> (r: usize)
    requires
        from <= len,
        len as int == s@.len(),
    ensures
        r as int == fsym_run_end(s@, from as int, singles@),
        from <= r <= len,
    decreases len - from,
{
    if from >= len {
        return from;
    }
    let c = char_at(s, from);
    if !is_fsym_stop(c, singles) {
        fsym_run_to(s, from + 1, len, singles)
    } else {
        from
    }
}

/// The keyword sequence a vector of keyword strings stands for.
pub open spec fn kw_seq(ks: Seq<String>) -> Seq<Seq<char>> {
    Seq::new(ks.len(), |i: int| ks[i]@)
}

/// Whether `t` is one of the configured keywords.
fn kw_contains(v: &Vec<String>, t: &String) -> (r: bool)
    ensures
        r == kw_seq(v@).contains(t@),
{
    let mut k: usize = 0;
    while k < v.len()
        invariant
            0 <= k <= v@.len(),
            forall|i: int| 0 <= i < k ==> kw_seq(v@)[i] != t@,
        decreases v@.len() - k,
    {
        if v[k].eq(t) {
            assert(kw_seq(v@)[k as int] == t@);
            return true;
        }
        k = k + 1;
    }
    proof {
        if kw_seq(v@).contains(t@) {
            let i = choose|i: int| 0 <= i < kw_seq(v@).len() && kw_seq(v@)[i] == t@;
            assert(false);
        }
    }
    false
}

/// A [`Token`] producer over a sequence of input lines, as a line-reading
/// loop hands them over (each line including its trailing newline).  It
/// recognizes multi-line string literals and comments, optionally keeps
/// comments and newlines as tokens, and classifies keywords.
pub struct File_tokenizer {
    lines: Vec<String>,
    li: usize,
    line: String,
    linenum: usize,
    column: usize,
    mode: Mode,
    current_string: String,
    keywords: Vec<String>,
    singletons: Vec<char>,
    line_comment: String,
    keep_comments: bool,
    begin_comment: String,
    end_comment: String,
    keep_newline: bool,
}

impl View for File_tokenizer {
    type V = FtView;

    closed spec fn view(&self) -> FtView {
        FtView {
            lines: Seq::new(self.lines@.len(), |i: int| self.lines@[i]@),
            li: self.li as int,
            line: self.line@,
            linenum: self.linenum as int,
            column: self.column as int,
            mode: self.mode@,
            accum: self.current_string@,
            keywords: kw_seq(self.keywords@),
            singletons: self.singletons@,
            line_comment: self.line_comment@,
            begin_comment: self.begin_comment@,
            end_comment: self.end_comment@,
            keep_comments: self.keep_comments,
            keep_newline: self.keep_newline,
        }
    }
}

impl File_tokenizer {
    pub open spec fn wf(&self) -> bool {
        ft_wf(self@)
    }

    /// Creates a tokenizer over the given input lines, with the default
    /// configuration: no keywords, brackets as singleton symbols, `//` as
    /// line comment, `/*` and `*/` as multi-line comment markers, comments
    /// and newlines not kept.
    pub fn from_lines(lines: Vec<String>) -> (r: File_tokenizer)
        requires
            lines@.len() < usize::MAX,
        ensures
            r.wf(),
            r@.lines == Seq::new(lines@.len(), |i: int| lines@[i]@),
            r@.li == 0,
            r@.linenum == 0,
            r@.column == 0,
            r@.line == Seq::<char>::empty(),
            r@.mode matches ModeV::N,
            r@.accum == Seq::<char>::empty(),
            r@.keywords == Seq::<Seq<char>>::empty(),
            r@.singletons == seq!['[', ']', '(', ')', '{', '}'],
            r@.line_comment == "//"@,
            r@.begin_comment == "/*"@,
            r@.end_comment == "*/"@,
            r@.keep_comments == false,
            r@.keep_newline == false,
    {
        let mut singlesyms: Vec<char> = Vec::new();
        singlesyms.push('[');
        singlesyms.push(']');
        singlesyms.push('(');
        singlesyms.push(')');
        singlesyms.push('{');
        singlesyms.push('}');
        proof {
            reveal_strlit("//");
            reveal_strlit("/*");
            reveal_strlit("*/");
            assert(singlesyms@ =~= seq!['[', ']', '(', ')', '{', '}']);
            assert(kw_seq(Seq::<String>::empty()) =~= Seq::<Seq<char>>::empty());
        }
        File_tokenizer {
            lines,
            li: 0,
            line: String::new(),
            linenum: 0,
            column: 0,
            mode: Mode::normal,
            current_string: String::new(),
            keywords: Vec::new(),
            singletons: singlesyms,
            line_comment: String::from_str("//"),
            keep_comments: false,
            begin_comment: String::from_str("/*"),
            end_comment: String::from_str("*/"),
            keep_newline: false,
        }
    }

    /// The number of the line currently being read (the first line is 1).
    pub fn line_number(&self) -> (r: usize)
        ensures
            r as int == self@.linenum,
    {
        self.linenum
    }

    /// The current column (character position) on the current line.
    pub fn column_number(&self) -> (r: usize)
        ensures
            r as int == self@.column,
    {
        self.column
    }

    /// A copy of the current line being tokenized.
    pub fn current_line(&self) -> (r: String)
        ensures
            r@ == self@.line,
    {
        self.line.clone()
    }

    /// The line on which the pending multi-line comment or string literal
    /// started, or `None` while scanning normally.
    pub fn pending_since(&self) -> (r: Option<usize>)
        ensures
            match r {
                Option::Some(n) => self@.mode == ModeV::C(n as int) || self@.mode == ModeV::S(
                    n as int,
                ),
                Option::None => self@.mode matches ModeV::N,
            },
    {
        match self.mode {
            Mode::normal => None,
            Mode::comment(n) => Some(n),
            Mode::stringlit(n) => Some(n),
        }
    }

    /// Adds keywords, given as one whitespace-separated batch, to be
    /// distinguished from other alphanumeric tokens.
    pub fn add_keywords(&mut self, kws: &str)
        ensures
            final(self)@ == (FtView {
                keywords: old(self)@.keywords + ws_pieces(kws@, 0),
                ..old(self)@
            }),
            final(self).wf() == old(self).wf(),
    {
        let ghost kw0 = self@.keywords;
        let len = kws.unicode_len();
        let mut j: usize = 0;
        let mut stop = false;
        while !stop
            invariant
                j <= len,
                len as int == kws@.len(),
                kw_seq(self.keywords@) + ws_pieces(kws@, j as int) == kw0 + ws_pieces(kws@, 0),
                self@ == (FtView { keywords: kw_seq(self.keywords@), ..old(self)@ }),
                stop ==> ws_pieces(kws@, j as int) == Seq::<Seq<char>>::empty(),
            decreases len - j + (if stop {
                0int
            } else {
                1int
            }),
        {
            let a = white_run_to(kws, j, len);
            proof {
                lemma_white_end(kws@, j as int);
            }
            if a >= len {
                proof {
                    assert(ws_pieces(kws@, j as int) =~= Seq::<Seq<char>>::empty());
                }
                stop = true;
            } else {
                let b = nonwhite_run_to(kws, a, len);
                proof {
                    lemma_nonwhite_end(kws@, a as int);
                    assert(ws_pieces(kws@, j as int) == seq![kws@.subrange(a as int, b as int)]
                        + ws_pieces(kws@, b as int));
                }
                let piece = kws.substring_char(a, b).to_owned();
                let ghost kv_before = kw_seq(self.keywords@);
                self.keywords.push(piece);
                proof {
                    assert(kw_seq(self.keywords@) =~= kv_before + seq![
                        kws@.subrange(a as int, b as int),
                    ]);
                    assert(kw_seq(self.keywords@) + ws_pieces(kws@, b as int) =~= kv_before
                        + ws_pieces(kws@, j as int));
                    assert(self@ == (FtView { keywords: kw_seq(self.keywords@), ..old(self)@ }));
                }
                j = b;
            }
        }
        proof {
            assert(kw_seq(self.keywords@) + Seq::<Seq<char>>::empty() =~= kw_seq(self.keywords@));
            assert(final(self)@ == (FtView {
                keywords: old(self)@.keywords + ws_pieces(kws@, 0),
                ..old(self)@
            }));
        }
    }
}

} // verus!

verus! {

/// The position where the trailing whitespace of `s` begins.
fn trim_end_to(s: &str, len: usize) -> (r: usize)
    requires
        len as int == s@.len(),
    ensures
        r as int == trim_end_pos(s@, len as int),
        r <= len,
{
    let mut e: usize = len;
    let mut stop = false;
    while !stop && e > 0
        invariant
            e <= len,
            len as int == s@.len(),
            !stop ==> trim_end_pos(s@, len as int) == trim_end_pos(s@, e as int),
            stop ==> trim_end_pos(s@, len as int) == e as int,
        decreases e + (if stop { 0int } else { 1int }),
    {
        let c = char_at(s, e - 1);
        if is_white(c) {
            assert(trim_end_pos(s@, e as int) == trim_end_pos(s@, e - 1));
            e = e - 1;
        } else {
            assert(trim_end_pos(s@, e as int) == e as int);
            stop = true;
        }
    }
    proof {
        if !stop {
            assert(trim_end_pos(s@, e as int) == e as int);
        }
    }
    e
}

/// The view of a trimmed string: without its leading and trailing
/// whitespace.
pub open spec fn trim_view(s: Seq<char>) -> Seq<char> {
    let a = white_end(s, 0);
    if a >= s.len() {
        Seq::empty()
    } else {
        s.subrange(a, trim_end_pos(s, s.len() as int))
    }
}

proof fn lemma_concat_contains(a: Seq<char>, b: Seq<char>, c: char)
    requires
        a.contains(c),
    ensures
        (a + b).contains(c),
{
    let i = choose|i: int| 0 <= i < a.len() && a[i] == c;
    assert((a + b)[i] == c);
}

impl File_tokenizer {
    /// Adds characters to be recognized as single-character Symbol tokens;
    /// the default singletons are the six brackets, which always stay
    /// singletons.
    pub fn add_singletons(&mut self, singles: &str)
        ensures
            final(self)@ == (FtView {
                singletons: old(self)@.singletons + singles@,
                ..old(self)@
            }),
            old(self).wf() ==> final(self).wf(),
    {
        let len = singles.unicode_len();
        let mut j: usize = 0;
        while j < len
            invariant
                j <= len,
                len as int == singles@.len(),
                self@ == (FtView {
                    singletons: old(self)@.singletons + singles@.take(j as int),
                    ..old(self)@
                }),
            decreases len - j,
        {
            let c = char_at(singles, j);
            self.singletons.push(c);
            proof {
                assert(self@.singletons =~= old(self)@.singletons + singles@.take(j + 1));
            }
            j = j + 1;
        }
        proof {
            assert(singles@.take(len as int) =~= singles@);
            if old(self).wf() {
                lemma_concat_contains(old(self)@.singletons, singles@, '(');
                lemma_concat_contains(old(self)@.singletons, singles@, ')');
                lemma_concat_contains(old(self)@.singletons, singles@, '[');
                lemma_concat_contains(old(self)@.singletons, singles@, ']');
                lemma_concat_contains(old(self)@.singletons, singles@, '{');
                lemma_concat_contains(old(self)@.singletons, singles@, '}');
            }
        }
    }

    /// Sets the symbol that designates a single-line comment (default
    /// `//`), trimmed of surrounding whitespace; the empty string has no
    /// effect.
    pub fn set_line_comment(&mut self, c: &str)
        ensures
            c@.len() == 0 ==> final(self)@ == old(self)@,
            c@.len() > 0 ==> final(self)@ == (FtView {
                line_comment: trim_view(c@),
                ..old(self)@
            }),
            final(self).wf() == old(self).wf(),
    {
        let len = c.unicode_len();
        if len == 0 {
            return ;
        }
        let a = white_run_to(c, 0, len);
        proof {
            lemma_white_end(c@, 0);
        }
        if a >= len {
            self.line_comment = String::new();
            return ;
        }
        let e = trim_end_to(c, len);
        proof {
            lemma_trim_end_lb(c@, len as int, a as int);
        }
        self.line_comment = c.substring_char(a, e).to_owned();
    }

    /// Sets the delimiters of possibly multi-line comments from a
    /// whitespace-separated pair such as `"/* */"` (the default).  Anything
    /// that is not exactly two pieces has no effect.
    pub fn set_comments(&mut self, s: &str)
        ensures
            ws_pieces(s@, 0).len() == 2 ==> final(self)@ == (FtView {
                begin_comment: ws_pieces(s@, 0)[0],
                end_comment: ws_pieces(s@, 0)[1],
                ..old(self)@
            }),
            ws_pieces(s@, 0).len() != 2 ==> final(self)@ == old(self)@,
            old(self).wf() ==> final(self).wf(),
    {
        let len = s.unicode_len();
        let a1 = white_run_to(s, 0, len);
        proof {
            lemma_white_end(s@, 0);
        }
        if a1 >= len {
            return ;
        }
        let b1 = nonwhite_run_to(s, a1, len);
        proof {
            lemma_nonwhite_end(s@, a1 as int);
        }
        let a2 = white_run_to(s, b1, len);
        proof {
            lemma_white_end(s@, b1 as int);
        }
        if a2 >= len {
            proof {
                assert(ws_pieces(s@, b1 as int) =~= Seq::<Seq<char>>::empty());
                assert(ws_pieces(s@, 0) =~= seq![s@.subrange(a1 as int, b1 as int)]);
            }
            return ;
        }
        let b2 = nonwhite_run_to(s, a2, len);
        proof {
            lemma_nonwhite_end(s@, a2 as int);
        }
        let a3 = white_run_to(s, b2, len);
        proof {
            lemma_white_end(s@, b2 as int);
        }
        if a3 < len {
            proof {
                lemma_nonwhite_end(s@, a3 as int);
                assert(ws_pieces(s@, b2 as int) == seq![
                    s@.subrange(a3 as int, nonwhite_end(s@, a3 as int)),
                ] + ws_pieces(s@, nonwhite_end(s@, a3 as int)));
                assert(ws_pieces(s@, b1 as int) == seq![s@.subrange(a2 as int, b2 as int)]
                    + ws_pieces(s@, b2 as int));
                assert(ws_pieces(s@, 0) == seq![s@.subrange(a1 as int, b1 as int)] + ws_pieces(
                    s@,
                    b1 as int,
                ));
                assert(ws_pieces(s@, 0).len() >= 3);
            }
            return ;
        }
        proof {
            assert(ws_pieces(s@, b2 as int) =~= Seq::<Seq<char>>::empty());
            assert(ws_pieces(s@, b1 as int) == seq![s@.subrange(a2 as int, b2 as int)] + ws_pieces(
                s@,
                b2 as int,
            ));
            assert(ws_pieces(s@, 0) == seq![s@.subrange(a1 as int, b1 as int)] + ws_pieces(
                s@,
                b1 as int,
            ));
            assert(ws_pieces(s@, 0) =~= seq![
                s@.subrange(a1 as int, b1 as int),
                s@.subrange(a2 as int, b2 as int),
            ]);
        }
        self.begin_comment = s.substring_char(a1, b1).to_owned();
        self.end_comment = s.substring_char(a2, b2).to_owned();
    }

    /// Disables the recognition of single-line comments; it can be
    /// re-enabled with [`Self::set_line_comment`].
    pub fn no_line_comment(&mut self)
        ensures
            final(self)@ == (FtView { line_comment: Seq::<char>::empty(), ..old(self)@ }),
            final(self).wf() == old(self).wf(),
    {
        self.line_comment = String::new();
    }

    /// Sets whether comments are kept as Verbatim tokens (default false).
    pub fn set_keep_comments(&mut self, b: bool)
        ensures
            final(self)@ == (FtView { keep_comments: b, ..old(self)@ }),
            final(self).wf() == old(self).wf(),
    {
        self.keep_comments = b;
    }

    /// Sets whether a Newline token is emitted when a line is exhausted in
    /// normal mode (default false).
    pub fn set_keep_newline(&mut self, b: bool)
        ensures
            final(self)@ == (FtView { keep_newline: b, ..old(self)@ }),
            final(self).wf() == old(self).wf(),
    {
        self.keep_newline = b;
    }
}

} // verus!

verus! {

/// Whether the symbol text `y` begins with the line-comment marker `lc`.
fn starts_lc(y: &str, lc: &str) -> (r: bool)
    ensures
        r == starts_line_comment(y@, lc@),
{
    let ylen = y.unicode_len();
    let lclen = lc.unicode_len();
    if lclen == 0 || ylen < lclen {
        return false;
    }
    let r = occurs_exec(y, 0, ylen, lc);
    proof {
        assert(y@.subrange(0, lc@.len() as int) =~= y@.take(lc@.len() as int));
    }
    r
}

impl File_tokenizer {
    /// Produces the next token, refilling the line buffer on demand, or
    /// `None` when the input is exhausted in normal mode, exactly as
    /// [`spec_ft_next`] describes.  Reaching the end of the input inside a
    /// string literal or comment yields an error token naming the
    /// construct.
    #[verifier::rlimit(100)]
    pub fn next(&mut self) -> (r: Option<Token>)
        requires
            old(self).wf(),
        ensures
            final(self).wf(),
            final(self)@ == spec_ft_next(old(self)@).1,
            (r is None) == (spec_ft_next(old(self)@).0 is None),
            r matches Some(t) ==> spec_ft_next(old(self)@).0 == Some(t@),
    {
        loop
            invariant
                self.wf(),
                spec_ft_next(old(self)@) == spec_ft_next(self@),
            decreases self@.lines.len() - self@.li, self@.line.len() - self@.column + 1,
        {
            let ghost v = self@;
            proof {
                lemma_ft_next_wf(v);
            }
            let llen = self.line.as_str().unicode_len();
            if self.column >= llen {
                if self.li < self.lines.len() {
                    let nl = self.lines[self.li].clone();
                    self.line = nl;
                    self.li = self.li + 1;
                    self.linenum = self.linenum + 1;
                    self.column = 0;
                    proof {
                        assert(self@ == (FtView {
                            line: v.lines[v.li],
                            li: v.li + 1,
                            linenum: v.linenum + 1,
                            column: 0,
                            ..v
                        }));
                        assert(spec_ft_next(v) == spec_ft_next(self@));
                    }
                    continue ;
                }
                match self.mode {
                    Mode::stringlit(_) => {
                        return Some(Token::Error("unclosed string literal"));
                    },
                    Mode::comment(_) => {
                        return Some(Token::Error("unclosed comment"));
                    },
                    Mode::normal => {
                        return None;
                    },
                }
            }
            let cur = self.line.clone();
            let cs = cur.as_str();
            let p = match self.mode {
                Mode::normal => white_run_to(cs, self.column, llen),
                _ => self.column,
            };
            let mode_c = iscomment(&self.mode);
            let begin_here = match self.mode {
                Mode::normal => occurs_exec(cs, p, llen, self.begin_comment.as_str()),
                _ => false,
            };
            if mode_c || begin_here {
                let startline: usize = match self.mode {
                    Mode::comment(n) => n,
                    _ => self.linenum,
                };
                match find_sub_exec(cs, p, llen, self.end_comment.as_str()) {
                    Some(e) => {
                        let np = e + self.end_comment.as_str().unicode_len();
                        let mut text = self.current_string.clone();
                        text.append(cs.substring_char(p, np));
                        self.current_string = String::new();
                        self.mode = Mode::normal;
                        self.column = np;
                        if self.keep_comments {
                            return Some(Token::Verbatim(text));
                        }
                        proof {
                            assert(spec_ft_next(v) == spec_ft_next(self@));
                        }
                        continue ;
                    },
                    None => {
                        let mut acc = self.current_string.clone();
                        acc.append(cs.substring_char(p, llen));
                        self.current_string = acc;
                        self.mode = Mode::comment(startline);
                        self.column = llen;
                        proof {
                            assert(spec_ft_next(v) == spec_ft_next(self@));
                        }
                        continue ;
                    },
                }
            }
            let mode_s = isstringlit(&self.mode);
            let quote_here = if p < llen {
                char_at(cs, p) == '"'
            } else {
                false
            };
            if mode_s || quote_here {
                let startline: usize = match self.mode {
                    Mode::stringlit(n) => n,
                    _ => self.linenum,
                };
                let from = if mode_s {
                    p
                } else {
                    p + 1
                };
                match strlit_scan(cs, from, llen) {
                    Some(e) => {
                        let mut text = self.current_string.clone();
                        text.append(cs.substring_char(p, e));
                        self.current_string = String::new();
                        self.mode = Mode::normal;
                        self.column = e;
                        return Some(Token::Stringlit(text));
                    },
                    None => {
                        let mut acc = self.current_string.clone();
                        acc.append(cs.substring_char(p, llen));
                        self.current_string = acc;
                        self.mode = Mode::stringlit(startline);
                        self.column = llen;
                        proof {
                            assert(spec_ft_next(v) == spec_ft_next(self@));
                        }
                        continue ;
                    },
                }
            }
            if p >= llen {
                self.column = llen;
                if self.keep_newline {
                    return Some(Token::Newline);
                }
                proof {
                    assert(spec_ft_next(v) == spec_ft_next(self@));
                }
                continue ;
            }
            let c0 = char_at(cs, p);
            if is_alpha(c0) || c0 == '_' {
                let e = word_run_to(cs, p + 1, llen);
                let y = cs.substring_char(p, e).to_owned();
                self.column = e;
                if kw_contains(&self.keywords, &y) {
                    return Some(Token::Keyword(y));
                }
                return Some(Token::Alphanum(y));
            }
            if c0 == '.' || is_digit(c0) {
                match num_scan_to(cs, p, llen) {
                    Some(e) => {
                        proof {
                            lemma_num_end_bounds(cs@, p as int, false, false);
                        }
                        let mut alldig = true;
                        let mut t: usize = p;
                        while t < e
                            invariant
                                p <= t <= e,
                                e <= llen,
                                llen as int == cs@.len(),
                                alldig ==> forall|q: int| p <= q < t ==> ascii_digit(cs@[q]),
                                !alldig ==> !all_digits(cs@.subrange(p as int, e as int)),
                            decreases e - t,
                        {
                            let cq = char_at(cs, t);
                            if !is_digit(cq) {
                                proof {
                                    assert(cs@.subrange(p as int, e as int)[t - p] == cs@[
                                        t as int
                                    ]);
                                }
                                alldig = false;
                            }
                            t = t + 1;
                        }
                        proof {
                            if alldig {
                                assert forall|q: int|
                                    0 <= q < cs@.subrange(p as int, e as int).len() implies ascii_digit(
                                    #[trigger] cs@.subrange(p as int, e as int)[q],
                                ) by {
                                    assert(cs@.subrange(p as int, e as int)[q] == cs@[p + q]);
                                }
                            }
                        }
                        self.column = e;
                        if alldig {
                            match parse_dec(cs, p, e) {
                                Some(val) => {
                                    return Some(Token::Integer(val));
                                },
                                None => {
                                    let y = cs.substring_char(p, e).to_owned();
                                    return Some(Token::Float(y));
                                },
                            }
                        }
                        let y = cs.substring_char(p, e).to_owned();
                        return Some(Token::Float(y));
                    },
                    None => {
                        let y = cs.substring_char(p, p + 1).to_owned();
                        if starts_lc(y.as_str(), self.line_comment.as_str()) {
                            self.column = llen;
                            if self.keep_comments {
                                let text = cs.substring_char(p, llen).to_owned();
                                return Some(Token::Verbatim(text));
                            }
                            proof {
                                assert(spec_ft_next(v) == spec_ft_next(self@));
                            }
                            continue ;
                        }
                        self.column = p + 1;
                        return Some(Token::Symbol(y));
                    },
                }
            }
            if vec_has_char(&self.singletons, c0) {
                let y = cs.substring_char(p, p + 1).to_owned();
                if starts_lc(y.as_str(), self.line_comment.as_str()) {
                    self.column = llen;
                    if self.keep_comments {
                        let text = cs.substring_char(p, llen).to_owned();
                        return Some(Token::Verbatim(text));
                    }
                    proof {
                        assert(spec_ft_next(v) == spec_ft_next(self@));
                    }
                    continue ;
                }
                self.column = p + 1;
                return Some(Token::Symbol(y));
            }
            if crate::chars::is_alnum(c0) {
                self.column = llen;
                proof {
                    assert(spec_file_match_symbol(v.line, p as int, v.singletons) == 0);
                    assert(spec_ft_next(v) == spec_ft_next(self@));
                }
                continue ;
            }
            let e = fsym_run_to(cs, p + 1, llen, &self.singletons);
            let y = cs.substring_char(p, e).to_owned();
            proof {
                lemma_fsym_run_end(cs@, p + 1, self@.singletons);
            }
            if starts_lc(y.as_str(), self.line_comment.as_str()) {
                self.column = llen;
                if self.keep_comments {
                    let text = cs.substring_char(p, llen).to_owned();
                    return Some(Token::Verbatim(text));
                }
                proof {
                    assert(spec_ft_next(v) == spec_ft_next(self@));
                }
                continue ;
            }
            self.column = e;
            return Some(Token::Symbol(y));
        }
    }
}

} // verus!

// ---------------------------------------------------------------------------
// Laws of the line-oriented scanner.
// ---------------------------------------------------------------------------

verus! {

/// Law: a bracket character at the scanning position is always a singleton
/// Symbol token, whatever singletons were added to the configuration (the
/// brackets are in every singleton set by construction), provided scanning
/// is in normal mode and no comment marker starts there.
pub proof fn lemma_file_bracket_singleton(v: FtView)
    requires
        ft_wf(v),
        v.mode matches ModeV::N,
        v.column < v.line.len(),
        crate::single::delim_char(v.line[v.column]),
        !occurs_at(v.line, v.begin_comment, v.column),
        !starts_line_comment(v.line.subrange(v.column, v.column + 1), v.line_comment),
    ensures
        spec_ft_next(v).0 == Some(TokView::Sym(v.line.subrange(v.column, v.column + 1))),
        spec_ft_next(v).1.column == v.column + 1,
        spec_ft_next(v).1.mode matches ModeV::N,
{
    let line = v.line;
    let c = line[v.column];
    assert(!white_char(c));
    assert(white_end(line, v.column) == v.column);
    assert(!alpha_char(c) && c != '_');
    assert(c != '.' && !ascii_digit(c));
    assert(c != '"');
    assert(spec_file_match_symbol(line, v.column, v.singletons) == 1);
}

/// Law (idempotence): a scanning step is a pure function of the scanner's
/// view, so re-scanning the same lines with a fresh instance yields the
/// identical tokens.
pub proof fn lemma_file_rescan_idempotent(v1: FtView, v2: FtView)
    requires
        v1 == v2,
    ensures
        spec_ft_next(v1) == spec_ft_next(v2),
{
}

} // verus!

verus! {

/// The stream of tokens a scan from `v` produces, up to and including a
/// fatal error token (after which the state no longer advances).
pub open spec fn ft_tokens(v: FtView) -> Seq<TokView>
    decreases v.lines.len() - v.li, v.line.len() - v.column + 1, 1int
        when ft_wf(v) via ft_tokens_decreases
{
    let step = spec_ft_next(v);
    match step.0 {
        None => Seq::empty(),
        Some(t) => if t matches TokView::ErrTok(_) {
            seq![t]
        } else {
            seq![t] + ft_tokens(step.1)
        },
    }
}

#[via_fn]
proof fn ft_tokens_decreases(v: FtView) {
    lemma_ft_next_wf(v);
}

/// Law (idempotence): the token stream of the line-oriented scanner is a
/// pure function of its view, so re-scanning the same lines with a fresh
/// instance yields the identical token sequence.
pub proof fn lemma_file_stream_idempotent(v1: FtView, v2: FtView)
    requires
        v1 == v2,
    ensures
        ft_tokens(v1) == ft_tokens(v2),
{
}

} // verus!

verus! {

/// Law (round trip, one step): with comments and newlines kept, a scanning
/// step in normal mode that stays on its line and in normal mode consumes
/// exactly the whitespace it skips plus the literal text of the token it
/// produces.  (A step that leaves its line or its mode is continuing a
/// multi-line construct; its text accumulates across lines instead.)
/// A scanner whose line buffer is exhausted either refills (advancing the
/// line index) or ends the scan with its state unchanged.
proof fn lemma_ft_line_exhausted_advances(iv: FtView)
    requires
        ft_wf(iv),
        iv.column >= iv.line.len(),
    ensures
        spec_ft_next(iv).1.li > iv.li || (iv.li == iv.lines.len() && spec_ft_next(iv).1 == iv),
{
    if iv.li < iv.lines.len() {
        let rv = FtView {
            line: iv.lines[iv.li],
            li: iv.li + 1,
            linenum: iv.linenum + 1,
            column: 0,
            ..iv
        };
        lemma_ft_next_wf(rv);
        assert(spec_ft_next(iv) == spec_ft_next(rv));
    }
}

pub proof fn lemma_file_round_trip_step(v: FtView)
    requires
        ft_wf(v),
        v.mode matches ModeV::N,
        v.column < v.line.len(),
        v.keep_comments,
        v.keep_newline,
    ensures
        ({
            let p = white_end(v.line, v.column);
            let step = spec_ft_next(v);
            &&& crate::chars::all_white(v.line, v.column, p)
            &&& (step.0 matches Some(t) ==> ((step.1.li == v.li && step.1.mode matches ModeV::N)
                ==> crate::single::tok_text(t, v.line.subrange(p, step.1.column))))
        }),
{
    let line = v.line;
    let llen = line.len() as int;
    lemma_white_end(line, v.column);
    let p = white_end(line, v.column);
    let step = spec_ft_next(v);
    if occurs_at(line, v.begin_comment, p) {
        lemma_find_sub_from(line, p, v.end_comment);
        let e = find_sub_from(line, p, v.end_comment);
        if e >= 0 {
            let np = e + v.end_comment.len() as int;
            assert(v.accum + line.subrange(p, np) =~= line.subrange(p, np));
        } else {
            lemma_ft_line_exhausted_advances(
                FtView {
                    column: llen,
                    mode: ModeV::C(v.linenum),
                    accum: v.accum + line.subrange(p, llen),
                    ..v
                },
            );
        }
    } else if p < llen && line[p] == '"' {
        lemma_strlit_end_bounds(line, p + 1);
        let e = strlit_end(line, p + 1);
        if e >= 0 {
            assert(v.accum + line.subrange(p, e) =~= line.subrange(p, e));
        } else {
            lemma_ft_line_exhausted_advances(
                FtView {
                    column: llen,
                    mode: ModeV::S(v.linenum),
                    accum: v.accum + line.subrange(p, llen),
                    ..v
                },
            );
        }
    } else if p >= llen {
        assert(line.subrange(p, llen).len() == 0);
    } else if alpha_char(line[p]) || line[p] == '_' {
        lemma_word_run_end(line, p + 1);
    } else if line[p] == '.' || ascii_digit(line[p]) {
        lemma_num_end_bounds(line, p, false, false);
        let e = num_end(line, p, false, false);
        if e >= 0 {
            assert(line.subrange(p, e).len() >= 1);
        }
    } else {
        lemma_fsym_run_end(line, p + 1, v.singletons);
        if spec_file_match_symbol(line, p, v.singletons) <= 0 {
            lemma_ft_line_exhausted_advances(FtView { column: llen, ..v });
        }
    }
}

} // verus!
