use basic_lexer::zero_copy::LexSource;
use basic_lexer::zero_copy::RawToken;
use basic_lexer::zero_copy::StrTokenizer;

fn collect_all<'t>(tk: &mut StrTokenizer<'t>) -> Vec<(RawToken<'t>, usize, usize)> {
    let mut out = Vec::new();
    while let Some(t) = tk.next_token() {
        out.push(t);
    }
    out
}

#[test]
fn basic_sequence_with_lines_and_columns() {
    let mut tk = StrTokenizer::from_str("ab 12\ncd");
    assert_eq!(tk.next_token(), Some((RawToken::Alphanum("ab"), 1, 1)));
    assert_eq!(tk.next_token(), Some((RawToken::Num(12), 1, 4)));
    assert_eq!(tk.next_token(), Some((RawToken::Alphanum("cd"), 2, 1)));
    assert_eq!(tk.next_token(), None);
    assert_eq!(tk.line(), 2);
}

#[test]
fn unterminated_multiline_comment_is_fatal() {
    let mut tk = StrTokenizer::from_str("x\n  /* never closed\nmore");
    assert_eq!(tk.next_token(), Some((RawToken::Alphanum("x"), 1, 1)));
    // The error is located at the comment's opening position.
    assert_eq!(tk.next_token(), Some((RawToken::LexError, 2, 3)));
    // The position is pinned to the end of the input: nothing follows.
    assert_eq!(tk.next_token(), None);
    assert_eq!(tk.next_token(), None);
}

#[test]
fn doubles_take_precedence_over_singles() {
    let mut tk = StrTokenizer::from_str("a===b");
    tk.add_single('=');
    tk.add_double("==");
    assert_eq!(tk.next_token(), Some((RawToken::Alphanum("a"), 1, 1)));
    assert_eq!(tk.next_token(), Some((RawToken::Symbol("=="), 1, 2)));
    assert_eq!(tk.next_token(), Some((RawToken::Symbol("="), 1, 4)));
    assert_eq!(tk.next_token(), Some((RawToken::Alphanum("b"), 1, 5)));
}

#[test]
fn char_and_string_literals() {
    let mut tk = StrTokenizer::from_str("'x' \"a b\" '''");
    assert_eq!(tk.next_token(), Some((RawToken::Char('x'), 1, 1)));
    assert_eq!(tk.next_token(), Some((RawToken::Strlit("\"a b\""), 1, 5)));
    assert_eq!(tk.next_token(), Some((RawToken::Char('\''), 1, 11)));
    assert_eq!(tk.next_token(), None);
}

#[test]
fn string_spanning_three_lines() {
    let mut tk = StrTokenizer::from_str("\"line1\nline2\nline3\" z");
    assert_eq!(
        tk.next_token(),
        Some((RawToken::Strlit("\"line1\nline2\nline3\""), 1, 1))
    );
    assert_eq!(tk.line(), 3);
    assert_eq!(tk.next_token(), Some((RawToken::Alphanum("z"), 3, 8)));
}

#[test]
fn unterminated_string_is_fatal() {
    let mut tk = StrTokenizer::from_str("ok \"oops");
    assert_eq!(tk.next_token(), Some((RawToken::Alphanum("ok"), 1, 1)));
    assert_eq!(tk.next_token(), Some((RawToken::LexError, 1, 4)));
    assert_eq!(tk.next_token(), None);
}

#[test]
fn hex_and_decimal_numerals() {
    let mut tk = StrTokenizer::from_str("0x1F 255 0xg");
    assert_eq!(tk.next_token(), Some((RawToken::Num(31), 1, 1)));
    assert_eq!(tk.next_token(), Some((RawToken::Num(255), 1, 6)));
    // "0xg" is not a hex numeral: it scans as 0 then the identifier "xg".
    assert_eq!(tk.next_token(), Some((RawToken::Num(0), 1, 10)));
    assert_eq!(tk.next_token(), Some((RawToken::Alphanum("xg"), 1, 11)));
}

#[test]
fn hex_is_parsed_unsigned_and_stored_signed() {
    let mut tk = StrTokenizer::from_str("0xffffffffffffffff");
    assert_eq!(tk.next_token(), Some((RawToken::Num(-1), 1, 1)));
    assert_eq!(tk.next_token(), None);
}

#[test]
fn numeral_overflow_is_a_lex_error() {
    let mut tk = StrTokenizer::from_str("99999999999999999999");
    assert_eq!(tk.next_token(), Some((RawToken::LexError, 1, 1)));
    assert_eq!(tk.next_token(), None);

    let mut tk = StrTokenizer::from_str("0x1ffffffffffffffff");
    assert_eq!(tk.next_token(), Some((RawToken::LexError, 1, 1)));
    assert_eq!(tk.next_token(), None);
}

#[test]
fn floats_require_a_digit_after_the_point() {
    let mut tk = StrTokenizer::from_str("3.25 .5 7.");
    let t = tk.next_token();
    assert_eq!(t, Some((RawToken::Float("3.25"), 1, 1)));
    if let Some((RawToken::Float(text), _, _)) = t {
        assert_eq!(text.parse::<f64>().unwrap(), 3.25);
    }
    assert_eq!(tk.next_token(), Some((RawToken::Float(".5"), 1, 6)));
    // "7." is an integer followed by a symbol: the float rule needs a
    // digit after the point.
    assert_eq!(tk.next_token(), Some((RawToken::Num(7), 1, 9)));
    assert_eq!(tk.next_token(), Some((RawToken::Symbol("."), 1, 10)));
}

#[test]
fn comments_kept_and_skipped() {
    let mut tk = StrTokenizer::from_str("a // tail\nb /* c */ d");
    assert_eq!(tk.next_token(), Some((RawToken::Alphanum("a"), 1, 1)));
    assert_eq!(tk.next_token(), Some((RawToken::Alphanum("b"), 2, 1)));
    assert_eq!(tk.next_token(), Some((RawToken::Alphanum("d"), 2, 11)));
    assert_eq!(tk.next_token(), None);

    let mut tk = StrTokenizer::from_str("a // tail\nb /* c */ d");
    tk.keep_comment = true;
    assert_eq!(tk.next_token(), Some((RawToken::Alphanum("a"), 1, 1)));
    assert_eq!(tk.next_token(), Some((RawToken::Verbatim("// tail"), 1, 3)));
    assert_eq!(tk.next_token(), Some((RawToken::Alphanum("b"), 2, 1)));
    assert_eq!(tk.next_token(), Some((RawToken::Verbatim("/* c */"), 2, 3)));
    assert_eq!(tk.next_token(), Some((RawToken::Alphanum("d"), 2, 11)));
}

#[test]
fn whitespace_and_newline_tokens() {
    let mut tk = StrTokenizer::from_str("a b\nc");
    tk.keep_whitespace = true;
    tk.keep_newline = true;
    assert_eq!(tk.next_token(), Some((RawToken::Alphanum("a"), 1, 1)));
    assert_eq!(tk.next_token(), Some((RawToken::Whitespace(1), 1, 2)));
    assert_eq!(tk.next_token(), Some((RawToken::Alphanum("b"), 1, 3)));
    assert_eq!(tk.next_token(), Some((RawToken::Newline, 1, 4)));
    assert_eq!(tk.next_token(), Some((RawToken::Alphanum("c"), 2, 1)));
    assert_eq!(tk.next_token(), None);
}

#[test]
fn zero_copy_round_trip_concatenation() {
    let input = "ab == cd ; \"s\"";
    let mut tk = StrTokenizer::from_str(input);
    tk.keep_whitespace = true;
    let mut rebuilt = String::new();
    for (t, _, _) in collect_all(&mut tk) {
        match t {
            RawToken::Alphanum(s) | RawToken::Symbol(s) | RawToken::Strlit(s) => {
                rebuilt.push_str(s)
            },
            RawToken::Whitespace(n) => {
                for _ in 0..n {
                    rebuilt.push(' ');
                }
            },
            _ => panic!("unexpected token"),
        }
    }
    assert_eq!(rebuilt, input);
}

#[test]
fn zero_copy_rescan_is_idempotent() {
    let input = "x = 'y' /* k */ 0x10 .5 $$";
    let mut first = StrTokenizer::from_str(input);
    let mut second = StrTokenizer::from_str(input);
    assert_eq!(collect_all(&mut first), collect_all(&mut second));
}

#[test]
fn unrecognized_input_is_a_lex_error() {
    let mut tk = StrTokenizer::from_str("ok \u{7}");
    assert_eq!(tk.next_token(), Some((RawToken::Alphanum("ok"), 1, 1)));
    assert_eq!(tk.next_token(), Some((RawToken::LexError, 1, 4)));
    assert_eq!(tk.next_token(), None);
}

#[test]
fn trailing_whitespace_is_trimmed_at_bind() {
    let mut tk = StrTokenizer::from_str("ab   \n\t ");
    assert_eq!(tk.next_token(), Some((RawToken::Alphanum("ab"), 1, 1)));
    assert_eq!(tk.next_token(), None);
    assert_eq!(tk.position(), 2);
}

#[test]
fn source_struct_and_from_source() {
    let source = LexSource::from_parts(String::from("demo.c"), String::from("int x;\n"));
    assert_eq!(source.get_path(), "demo.c");
    assert_eq!(source.get_contents(), "int x;\n");
    let mut tk = StrTokenizer::from_source(&source);
    tk.set_line_comment("//");
    assert_eq!(tk.get_source(), "demo.c");
    assert_eq!(tk.next_token(), Some((RawToken::Alphanum("int"), 1, 1)));
    assert_eq!(tk.next_token(), Some((RawToken::Alphanum("x"), 1, 5)));
    assert_eq!(tk.next_token(), Some((RawToken::Symbol(";"), 1, 6)));
    assert_eq!(tk.next_token(), None);
}

#[test]
fn multiline_comment_markers_configurable() {
    let mut tk = StrTokenizer::from_str("a (* hidden *) b");
    tk.set_multiline_comments("(* *)");
    assert_eq!(tk.next_token(), Some((RawToken::Alphanum("a"), 1, 1)));
    assert_eq!(tk.next_token(), Some((RawToken::Alphanum("b"), 1, 16)));
    assert_eq!(tk.next_token(), None);
}
