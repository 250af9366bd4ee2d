use basic_lexer::File_tokenizer;
use basic_lexer::Token;

fn lines_of(parts: &[&str]) -> Vec<String> {
    parts.iter().map(|s| s.to_string()).collect()
}

fn collect_tokens(scanner: &mut File_tokenizer) -> Vec<Token> {
    let mut out: Vec<Token> = Vec::new();
    while let Some(t) = scanner.next() {
        if matches!(t, Token::Error(_)) {
            out.push(t);
            break;
        }
        out.push(t);
    }
    out
}

#[test]
fn keywords_are_reclassified() {
    let mut scanner = File_tokenizer::from_lines(lines_of(&["while return x\n"]));
    scanner.add_keywords("while return");
    let expected = vec![
        Token::Keyword(String::from("while")),
        Token::Keyword(String::from("return")),
        Token::Alphanum(String::from("x")),
    ];
    assert_eq!(collect_tokens(&mut scanner), expected);
}

#[test]
fn string_over_three_lines_is_one_token() {
    let mut scanner = File_tokenizer::from_lines(lines_of(&[
        "\"line1\n",
        "line2\n",
        "line3\" after\n",
    ]));
    assert_eq!(scanner.line_number(), 0);
    let t = scanner.next();
    assert_eq!(
        t,
        Some(Token::Stringlit(String::from("\"line1\nline2\nline3\"")))
    );
    // The literal started on line 1 and the scanner is now on line 3.
    assert_eq!(scanner.line_number(), 3);
    assert_eq!(scanner.next(), Some(Token::Alphanum(String::from("after"))));
    assert_eq!(scanner.next(), None);
}

#[test]
fn multi_line_comment_skipped_or_kept() {
    let parts = ["a /* one\n", "two */ b\n"];
    let mut scanner = File_tokenizer::from_lines(lines_of(&parts));
    let expected = vec![
        Token::Alphanum(String::from("a")),
        Token::Alphanum(String::from("b")),
    ];
    assert_eq!(collect_tokens(&mut scanner), expected);

    let mut scanner = File_tokenizer::from_lines(lines_of(&parts));
    scanner.set_keep_comments(true);
    let got = collect_tokens(&mut scanner);
    assert_eq!(got[0], Token::Alphanum(String::from("a")));
    assert_eq!(got[1], Token::Verbatim(String::from("/* one\ntwo */")));
    assert_eq!(got[2], Token::Alphanum(String::from("b")));
}

#[test]
fn unclosed_comment_is_an_error() {
    let mut scanner = File_tokenizer::from_lines(lines_of(&["x /* open\n", "still open\n"]));
    assert_eq!(scanner.next(), Some(Token::Alphanum(String::from("x"))));
    assert_eq!(scanner.next(), Some(Token::Error("unclosed comment")));
    assert_eq!(scanner.pending_since(), Some(1));
}

#[test]
fn unclosed_string_is_an_error() {
    let mut scanner = File_tokenizer::from_lines(lines_of(&["y \"never closed\n"]));
    assert_eq!(scanner.next(), Some(Token::Alphanum(String::from("y"))));
    assert_eq!(scanner.next(), Some(Token::Error("unclosed string literal")));
    assert_eq!(scanner.pending_since(), Some(1));
}

#[test]
fn line_comment_skipped_or_kept() {
    let parts = ["a // tail\n", "b\n"];
    let mut scanner = File_tokenizer::from_lines(lines_of(&parts));
    assert_eq!(
        collect_tokens(&mut scanner),
        vec![
            Token::Alphanum(String::from("a")),
            Token::Alphanum(String::from("b")),
        ]
    );

    let mut scanner = File_tokenizer::from_lines(lines_of(&parts));
    scanner.set_keep_comments(true);
    let got = collect_tokens(&mut scanner);
    assert_eq!(got[1], Token::Verbatim(String::from("// tail\n")));
}

#[test]
fn newline_tokens_when_requested() {
    let mut scanner = File_tokenizer::from_lines(lines_of(&["a\n", "b\n"]));
    scanner.set_keep_newline(true);
    let got = collect_tokens(&mut scanner);
    assert_eq!(
        got,
        vec![
            Token::Alphanum(String::from("a")),
            Token::Newline,
            Token::Alphanum(String::from("b")),
            Token::Newline,
        ]
    );
}

#[test]
fn brackets_stay_singletons_after_configuration() {
    let mut scanner = File_tokenizer::from_lines(lines_of(&["(=*=)\n"]));
    scanner.add_singletons(".*");
    let got = collect_tokens(&mut scanner);
    assert_eq!(
        got,
        vec![
            Token::Symbol(String::from("(")),
            Token::Symbol(String::from("=")),
            Token::Symbol(String::from("*")),
            Token::Symbol(String::from("=")),
            Token::Symbol(String::from(")")),
        ]
    );
}

#[test]
fn custom_comment_markers() {
    let mut scanner = File_tokenizer::from_lines(lines_of(&["a <# hidden #> b\n"]));
    scanner.set_comments("<# #>");
    assert_eq!(
        collect_tokens(&mut scanner),
        vec![
            Token::Alphanum(String::from("a")),
            Token::Alphanum(String::from("b")),
        ]
    );
}

#[test]
fn numerals_and_columns() {
    let mut scanner = File_tokenizer::from_lines(lines_of(&["12 3.5 .7\n"]));
    assert_eq!(scanner.next(), Some(Token::Integer(12)));
    assert_eq!(scanner.line_number(), 1);
    assert_eq!(scanner.column_number(), 2);
    assert_eq!(scanner.next(), Some(Token::Float(String::from("3.5"))));
    assert_eq!(scanner.next(), Some(Token::Float(String::from(".7"))));
    assert_eq!(scanner.current_line(), "12 3.5 .7\n");
}

#[test]
fn rescan_same_lines_is_idempotent() {
    let parts = ["while (x<2) { x += 1; } // loop\n", "\"a b\" 3.5\n"];
    let mut first = File_tokenizer::from_lines(lines_of(&parts));
    first.add_keywords("while");
    let mut second = File_tokenizer::from_lines(lines_of(&parts));
    second.add_keywords("while");
    assert_eq!(collect_tokens(&mut first), collect_tokens(&mut second));
}

#[test]
fn no_line_comment_disables_recognition() {
    let mut scanner = File_tokenizer::from_lines(lines_of(&["a // b\n"]));
    scanner.no_line_comment();
    let got = collect_tokens(&mut scanner);
    assert_eq!(
        got,
        vec![
            Token::Alphanum(String::from("a")),
            Token::Symbol(String::from("//")),
            Token::Alphanum(String::from("b")),
        ]
    );
}

#[test]
fn string_interior_whitespace_is_preserved() {
    // Inside a pending string literal the entire remaining line is
    // accumulated: indentation on continuation lines is kept.
    let mut scanner = File_tokenizer::from_lines(lines_of(&["\"a\n", "   b\"\n"]));
    assert_eq!(
        scanner.next(),
        Some(Token::Stringlit(String::from("\"a\n   b\"")))
    );
    assert_eq!(scanner.next(), None);
}

#[test]
fn empty_string_literal() {
    let mut scanner = File_tokenizer::from_lines(lines_of(&["\"\" x\n"]));
    assert_eq!(scanner.next(), Some(Token::Stringlit(String::from("\"\""))));
    assert_eq!(scanner.next(), Some(Token::Alphanum(String::from("x"))));
}
