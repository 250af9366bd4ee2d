use basic_lexer::Str_tokenizer;
use basic_lexer::Token;

fn collect_tokens(scanner: &mut Str_tokenizer) -> Vec<Token> {
    let mut out: Vec<Token> = Vec::new();
    while let Some(t) = scanner.next() {
        out.push(t);
    }
    out
}

#[test]
fn digits_scan_to_single_integer() {
    let mut scanner = Str_tokenizer::new("1234567");
    assert_eq!(scanner.next(), Some(Token::Integer(1234567)));
    assert_eq!(scanner.next(), None);
    assert_eq!(scanner.rest(), "");
}

#[test]
fn digit_point_digit_scans_to_single_float() {
    let mut scanner = Str_tokenizer::new("12.5");
    assert_eq!(scanner.next(), Some(Token::Float(String::from("12.5"))));
    assert_eq!(scanner.next(), None);

    let mut scanner = Str_tokenizer::new(".14");
    let t = scanner.next();
    assert_eq!(t, Some(Token::Float(String::from(".14"))));
    if let Some(Token::Float(text)) = t {
        assert_eq!(text.parse::<f64>().unwrap(), 0.14);
    }
    assert_eq!(scanner.next(), None);
}

#[test]
fn second_point_invalidates_numeral() {
    // A second '.' makes the whole numeral match fail; the scan falls back
    // to a single-character symbol.
    let mut scanner = Str_tokenizer::new("1.2.3");
    assert_eq!(scanner.next(), Some(Token::Symbol(String::from("1"))));
    assert_eq!(scanner.next(), Some(Token::Symbol(String::from("."))));
    assert_eq!(scanner.next(), Some(Token::Float(String::from("2.3"))));
    assert_eq!(scanner.next(), None);
}

#[test]
fn integer_overflow_becomes_float_text() {
    // A digit run whose value does not fit an i64 falls through to the
    // float interpretation, keeping the lexeme.
    let mut scanner = Str_tokenizer::new("99999999999999999999");
    assert_eq!(
        scanner.next(),
        Some(Token::Float(String::from("99999999999999999999")))
    );
    assert_eq!(scanner.next(), None);
}

#[test]
fn brackets_are_always_singletons() {
    let mut scanner = Str_tokenizer::new("(){}[]");
    for expected in ["(", ")", "{", "}", "[", "]"] {
        assert_eq!(scanner.next(), Some(Token::Symbol(String::from(expected))));
    }
    assert_eq!(scanner.next(), None);

    // Brackets break symbol runs: "=)" is not one symbol.
    let mut scanner = Str_tokenizer::new("=)");
    assert_eq!(scanner.next(), Some(Token::Symbol(String::from("="))));
    assert_eq!(scanner.next(), Some(Token::Symbol(String::from(")"))));
}

#[test]
fn reference_sequence() {
    let input = "x=12 &&u2*20==.14 -> \"ab c \" + k; print(f); n.f(); #b l a h";
    let mut scanner = Str_tokenizer::new(input);
    let expected = vec![
        Token::Alphanum(String::from("x")),
        Token::Symbol(String::from("=")),
        Token::Integer(12),
        Token::Symbol(String::from("&&")),
        Token::Alphanum(String::from("u2")),
        Token::Symbol(String::from("*")),
        Token::Integer(20),
        Token::Symbol(String::from("==")),
        Token::Float(String::from(".14")),
        Token::Symbol(String::from("->")),
        Token::Stringlit(String::from("\"ab c \"")),
        Token::Symbol(String::from("+")),
        Token::Alphanum(String::from("k")),
        Token::Symbol(String::from(";")),
        Token::Alphanum(String::from("print")),
        Token::Symbol(String::from("(")),
        Token::Alphanum(String::from("f")),
        Token::Symbol(String::from(")")),
        Token::Symbol(String::from(";")),
        Token::Alphanum(String::from("n")),
        Token::Symbol(String::from(".")),
        Token::Alphanum(String::from("f")),
        Token::Symbol(String::from("(")),
        Token::Symbol(String::from(")")),
        Token::Symbol(String::from(";")),
        Token::Verbatim(String::from("#b l a h")),
    ];
    let got = collect_tokens(&mut scanner);
    assert_eq!(got, expected);
}

#[test]
fn while_fork_sequence() {
    let mut scanner = Str_tokenizer::new("while (1+1==2) fork();");
    let expected = vec![
        Token::Alphanum(String::from("while")),
        Token::Symbol(String::from("(")),
        Token::Integer(1),
        Token::Symbol(String::from("+")),
        Token::Integer(1),
        Token::Symbol(String::from("==")),
        Token::Integer(2),
        Token::Symbol(String::from(")")),
        Token::Alphanum(String::from("fork")),
        Token::Symbol(String::from("(")),
        Token::Symbol(String::from(")")),
        Token::Symbol(String::from(";")),
    ];
    assert_eq!(collect_tokens(&mut scanner), expected);
}

#[test]
fn rescan_is_idempotent() {
    let input = "a = 1.5 + b2; # tail";
    let mut first = Str_tokenizer::new(input);
    let mut second = Str_tokenizer::new(input);
    assert_eq!(collect_tokens(&mut first), collect_tokens(&mut second));
}

#[test]
fn round_trip_concatenation() {
    // With single spaces between tokens, the literal texts plus the
    // skipped whitespace reconstruct the input exactly.
    let input = "abc == 42 \"s t\" .5 &";
    let mut scanner = Str_tokenizer::new(input);
    let mut pieces: Vec<String> = Vec::new();
    while let Some(t) = scanner.next() {
        let text = match t {
            Token::Integer(n) => n.to_string(),
            Token::Float(s) => s,
            Token::Symbol(s) => s,
            Token::Alphanum(s) => s,
            Token::Keyword(s) => s,
            Token::Stringlit(s) => s,
            Token::Verbatim(s) => s,
            _ => String::new(),
        };
        pieces.push(text);
    }
    assert_eq!(pieces.join(" "), input);
}

#[test]
fn rest_reset_and_line_comment_config() {
    let mut scanner = Str_tokenizer::new("  ab cd");
    assert_eq!(scanner.rest(), "ab cd");
    assert_eq!(scanner.next(), Some(Token::Alphanum(String::from("ab"))));
    assert_eq!(scanner.rest(), "cd");

    scanner.reset("%x rest");
    scanner.set_line_comment('%');
    assert_eq!(scanner.next(), Some(Token::Verbatim(String::from("%x rest"))));
    assert_eq!(scanner.next(), None);

    scanner.reset("%x");
    scanner.no_line_comment();
    assert_eq!(scanner.next(), Some(Token::Symbol(String::from("%"))));
    assert_eq!(scanner.next(), Some(Token::Alphanum(String::from("x"))));
}

#[test]
fn unterminated_string_degrades_to_verbatim() {
    let mut scanner = Str_tokenizer::new("\"no end");
    assert_eq!(scanner.next(), Some(Token::Verbatim(String::from("\"no end"))));
    assert_eq!(scanner.next(), None);
}

#[test]
fn escaped_quote_stays_inside_string() {
    let mut scanner = Str_tokenizer::new("\"a\\\"b\" c");
    assert_eq!(
        scanner.next(),
        Some(Token::Stringlit(String::from("\"a\\\"b\"")))
    );
    assert_eq!(scanner.next(), Some(Token::Alphanum(String::from("c"))));
}

#[test]
fn unicode_letters_form_alphanums() {
    // The alphabetic classification follows Unicode: accented letters
    // start and continue alphanumeric tokens.
    let mut scanner = Str_tokenizer::new("héllo wörld");
    assert_eq!(scanner.next(), Some(Token::Alphanum(String::from("héllo"))));
    assert_eq!(scanner.next(), Some(Token::Alphanum(String::from("wörld"))));
    assert_eq!(scanner.next(), None);
}

#[test]
fn empty_and_whitespace_only_inputs() {
    let mut scanner = Str_tokenizer::new("");
    assert_eq!(scanner.next(), None);
    let mut scanner = Str_tokenizer::new(" \t  ");
    assert_eq!(scanner.next(), None);
}
