use aipo::lexer::{LexDiagnostic, LexErrorCode, Lexer, StringPrefix, Token, TokenKind};

fn lex(code: &str) -> (Vec<Token>, Vec<LexDiagnostic>) {
    Lexer::new(code).tokenize()
}

fn kinds(code: &str) -> Vec<TokenKind> {
    lex(code).0.into_iter().map(|t| t.kind).collect()
}

fn span_is_valid(text: &str, token: &Token) -> bool {
    token.span.start <= token.span.end
        && token.span.end <= text.len()
        && text.is_char_boundary(token.span.start)
        && text.is_char_boundary(token.span.end)
}

#[test]
fn test_keywords_and_identifiers() {
    let code = "let var fixed fn struct impl interface satisfy init invariant if elif else then end match when loop while repeat as each in break continue return fail or_else attempt failed import export is not and or true false none self self! do div div=";
    let (tokens, diags) = lex(code);
    assert!(diags.is_empty());
    let kinds: Vec<_> = tokens.into_iter().map(|t| t.kind).collect();
    assert_eq!(
        kinds,
        vec![
            TokenKind::Let,
            TokenKind::Var,
            TokenKind::Fixed,
            TokenKind::Fn,
            TokenKind::Struct,
            TokenKind::Impl,
            TokenKind::Interface,
            TokenKind::Satisfy,
            TokenKind::Init,
            TokenKind::Invariant,
            TokenKind::If,
            TokenKind::Elif,
            TokenKind::Else,
            TokenKind::Then,
            TokenKind::End,
            TokenKind::Match,
            TokenKind::When,
            TokenKind::Loop,
            TokenKind::While,
            TokenKind::Repeat,
            TokenKind::As,
            TokenKind::Each,
            TokenKind::In,
            TokenKind::Break,
            TokenKind::Continue,
            TokenKind::Return,
            TokenKind::Fail,
            TokenKind::OrElse,
            TokenKind::Attempt,
            TokenKind::Failed,
            TokenKind::Import,
            TokenKind::Export,
            TokenKind::Is,
            TokenKind::Not,
            TokenKind::And,
            TokenKind::Or,
            TokenKind::True,
            TokenKind::False,
            TokenKind::NoneValue,
            TokenKind::SelfVal,
            TokenKind::SelfMut,
            TokenKind::Do,
            TokenKind::Div,
            TokenKind::DivEq,
            TokenKind::Eof,
        ]
    );
}

#[test]
fn test_numbers_and_ranges() {
    let code = "42 1_000_000 0xFF 0b1010 3.14 1.5e-3 1..10";
    let (tokens, diags) = lex(code);
    assert!(diags.is_empty());
    let kinds: Vec<_> = tokens.into_iter().map(|t| t.kind).collect();
    assert_eq!(
        kinds,
        vec![
            TokenKind::IntLiteral("42".into()),
            TokenKind::IntLiteral("1_000_000".into()),
            TokenKind::IntLiteral("0xFF".into()),
            TokenKind::IntLiteral("0b1010".into()),
            TokenKind::FloatLiteral("3.14".into()),
            TokenKind::FloatLiteral("1.5e-3".into()),
            TokenKind::IntLiteral("1".into()),
            TokenKind::DotDot,
            TokenKind::IntLiteral("10".into()),
            TokenKind::Eof,
        ]
    );
}

#[test]
fn test_malformed_numbers_report_invalid_number() {
    for code in ["0x", "0b102", "0o8", "1_", "1__0", "1e", "1e_5", "0x_FF", "1_.5", "1._5", "1.e5"] {
        let (_, diags) = lex(code);
        assert!(
            diags.iter().any(|d| d.code == LexErrorCode::InvalidNumber),
            "'{code}' must report an invalid number, got {diags:?}"
        );
    }
    for code in ["0xFF", "0b1010", "0o17", "1_000_000", "1.5e-3", "0xFF_FF", "1_0.0_1", "1..10"] {
        let (_, diags) = lex(code);
        assert!(diags.is_empty(), "'{code}' must lex cleanly, got {diags:?}");
    }
}

#[test]
fn test_string_prefixes_and_multiline() {
    let code = r#"
"hello"
f"value: {x}"
r"C:\path"
fr"raw format: {y}"
"""line 1
line 2"""
"#;
    let (tokens, diags) = lex(code);
    assert!(diags.is_empty(), "unexpected diagnostics: {diags:?}");
    let filtered: Vec<_> = tokens
        .into_iter()
        .filter(|t| !matches!(t.kind, TokenKind::Newline | TokenKind::Eof))
        .map(|t| t.kind)
        .collect();
    assert_eq!(
        filtered,
        vec![
            TokenKind::StringLiteral { content: "hello".into(), prefix: StringPrefix::Normal, is_multiline: false },
            TokenKind::StringLiteral { content: "value: {x}".into(), prefix: StringPrefix::Format, is_multiline: false },
            TokenKind::StringLiteral { content: r"C:\path".into(), prefix: StringPrefix::Raw, is_multiline: false },
            TokenKind::StringLiteral {
                content: "raw format: {y}".into(),
                prefix: StringPrefix::FormatRaw,
                is_multiline: false,
            },
            TokenKind::StringLiteral { content: "line 1\nline 2".into(), prefix: StringPrefix::Normal, is_multiline: true },
        ]
    );
}

#[test]
fn test_string_literals_are_nfc_normalized() {
    let code = "\"e\\u{0301}\"\nr\"e\\u{0301}\"\n";
    let (tokens, diags) = lex(code);
    assert!(diags.is_empty(), "unexpected diagnostics: {diags:?}");
    let literals: Vec<_> = tokens
        .into_iter()
        .filter_map(|t| match t.kind {
            TokenKind::StringLiteral { content, prefix, .. } => Some((content, prefix)),
            _ => None,
        })
        .collect();
    assert_eq!(
        literals[0],
        ("é".to_string(), StringPrefix::Normal),
        "a decoded escape pair must be stored as the composed character"
    );
    assert_eq!(
        literals[1],
        (r"e\u{0301}".to_string(), StringPrefix::Raw),
        "a raw literal keeps the escape text, which is already NFC"
    );
}

#[test]
fn test_operators_and_pipeline() {
    let code = "x |> filter |> sort += -= == != <= >= ?. ..";
    let (tokens, diags) = lex(code);
    assert!(diags.is_empty());
    let kinds: Vec<_> =
        tokens.into_iter().filter(|t| !matches!(t.kind, TokenKind::Eof)).map(|t| t.kind).collect();
    assert_eq!(
        kinds,
        vec![
            TokenKind::Identifier("x".into()),
            TokenKind::Pipeline,
            TokenKind::Identifier("filter".into()),
            TokenKind::Pipeline,
            TokenKind::Identifier("sort".into()),
            TokenKind::PlusEq,
            TokenKind::MinusEq,
            TokenKind::EqualEqual,
            TokenKind::BangEqual,
            TokenKind::LessEqual,
            TokenKind::GreaterEqual,
            TokenKind::QuestionDot,
            TokenKind::DotDot,
        ]
    );
}

#[test]
fn test_diagnostics_on_invalid_tokens() {
    let code = "\"unterminated";
    let (_tokens, diags) = lex(code);
    assert!(!diags.is_empty());
    assert_eq!(diags[0].code, LexErrorCode::UnterminatedString);
}

#[test]
fn test_integer_division_tokens() {
    let code = "10 // 2 //= 5";
    let (tokens, diags) = lex(code);
    assert!(diags.is_empty());
    let kinds: Vec<_> =
        tokens.into_iter().filter(|t| !matches!(t.kind, TokenKind::Eof)).map(|t| t.kind).collect();
    assert_eq!(
        kinds,
        vec![
            TokenKind::IntLiteral("10".into()),
            TokenKind::SlashSlash,
            TokenKind::IntLiteral("2".into()),
            TokenKind::SlashSlashEq,
            TokenKind::IntLiteral("5".into()),
        ]
    );
}

#[test]
fn test_spans_cover_source_monotonically() {
    let texts = [
        "let x = 1 + 2\nio.println(x)\n",
        "fn f(a, b)\nreturn a\nend\n",
        "f\"hi {name}!\" r\"raw\\n\" \"\"\"multi\nline\"\"\"\n",
        "struct P\nfixed id\nend\n",
        "a |> f |> g(1, x = 2)\n",
        "# only a comment\n",
        "",
        "\n\n\n",
    ];
    for text in texts {
        let (tokens, _) = lex(text);
        let mut cursor = 0usize;
        for token in &tokens {
            assert!(span_is_valid(text, token), "token span {:?} escapes the source of {text:?}", token.span);
            assert!(token.span.start >= cursor, "spans go backwards in {text:?}");
            cursor = token.span.start;
        }
        assert!(matches!(tokens.last().map(|t| &t.kind), Some(TokenKind::Eof)), "stream ends with Eof in {text:?}");
    }
}

#[test]
fn test_arbitrary_bytes_never_panic_and_terminate() {
    let mut state = 0x9E37_79B9_7F4A_7C15u64;
    let mut next = move || {
        state ^= state >> 12;
        state ^= state << 25;
        state ^= state >> 27;
        state = state.wrapping_mul(0x2545_F491_4F6C_DD1D);
        state
    };
    for _ in 0..2000 {
        let len = (next() % 96) as usize;
        let bytes: Vec<u8> = (0..len).map(|_| (next() & 0xFF) as u8).collect();
        let text = String::from_utf8_lossy(&bytes).into_owned();
        let (tokens, _) = lex(&text);
        for token in &tokens {
            assert!(span_is_valid(&text, token));
        }
        assert!(matches!(tokens.last().map(|t| &t.kind), Some(TokenKind::Eof)));
    }
}

#[test]
fn test_unicode_text_keeps_valid_spans() {
    let texts = [
        "let café = \"naïve\"\nio.println(café)\n",
        "io.println(\"é\")\n",
        "let 中文 = 1\nlet αβγ = 2\n",
        "io.println(\"🎉🎉\")\n",
        "\"a\u{200B}b\"\n",
    ];
    for text in texts {
        let (tokens, _) = lex(text);
        for token in &tokens {
            assert!(span_is_valid(text, token));
        }
        assert!(matches!(tokens.last().map(|t| &t.kind), Some(TokenKind::Eof)));
    }
}

#[test]
fn spans_are_byte_offsets_of_the_source() {
    let (tokens, _) = lex("let café = 1");
    assert_eq!(tokens[1].kind, TokenKind::Identifier("café".into()));
    assert_eq!((tokens[1].span.start, tokens[1].span.end), (4, 9));
    assert_eq!((tokens[2].span.start, tokens[2].span.end), (10, 11));
    let eof = tokens.last().expect("eof");
    assert_eq!((eof.span.start, eof.span.end), (13, 13));
}

#[test]
fn string_escapes_and_their_diagnostics() {
    let (tokens, diags) = lex("\"a\\tb\\u{41}\\u{+42}\\q\"");
    assert_eq!(
        tokens[0].kind,
        TokenKind::StringLiteral { content: "a\tbABq".into(), prefix: StringPrefix::Normal, is_multiline: false }
    );
    assert_eq!(diags.len(), 1);
    assert_eq!(diags[0].code, LexErrorCode::UnknownEscape);
    assert_eq!(diags[0].message, "unknown escape sequence '\\q'");

    let (_, diags) = lex("\"\\u{D800}\"");
    assert_eq!(diags[0].code, LexErrorCode::InvalidUnicodeEscape);
    assert_eq!(diags[0].message, "invalid unicode escape '\\u{D800}'");

    let (tokens, diags) = lex("\"\\u{41");
    assert_eq!(diags[0].code, LexErrorCode::UnexpectedCharacter);
    assert_eq!(diags[0].message, "unterminated unicode escape sequence");
    assert_eq!(diags[1].code, LexErrorCode::UnterminatedString);
    assert_eq!(tokens[0].kind, TokenKind::Error("unterminated string".into()));

    let (tokens, diags) = lex("\"line\nnext\"");
    assert_eq!(tokens[0].kind, TokenKind::Error("unterminated string".into()));
    assert_eq!(diags[0].message, "single-line string literal cannot span across newlines");
    assert_eq!((diags[0].span.start, diags[0].span.end), (0, 6));
}

#[test]
fn unexpected_characters_are_reported_and_skipped() {
    let (tokens, diags) = lex("a | b @");
    let kinds: Vec<_> = tokens.iter().map(|t| t.kind.clone()).collect();
    assert_eq!(
        kinds,
        vec![
            TokenKind::Identifier("a".into()),
            TokenKind::Error("|".into()),
            TokenKind::Identifier("b".into()),
            TokenKind::Error("@".into()),
            TokenKind::Eof,
        ]
    );
    assert_eq!(diags[0].message, "unexpected character '|', did you mean '|>'?");
    assert_eq!(diags[1].message, "unexpected character '@'");
    assert_eq!((diags[1].span.start, diags[1].span.end), (6, 7));
}

#[test]
fn doubled_prefixes_read_as_identifiers_and_comments_keep_their_text() {
    assert_eq!(
        kinds("ff\"x\" # note\n\n\nasync await _"),
        vec![
            TokenKind::Identifier("ff".into()),
            TokenKind::StringLiteral { content: "x".into(), prefix: StringPrefix::Normal, is_multiline: false },
            TokenKind::Comment(" note".into()),
            TokenKind::Newline,
            TokenKind::Async,
            TokenKind::Await,
            TokenKind::Discard,
            TokenKind::Eof,
        ]
    );
    assert_eq!(kinds("1E+5"), vec![TokenKind::FloatLiteral("1e+5".into()), TokenKind::Eof]);
    assert_eq!(kinds("1.e5"), vec![TokenKind::FloatLiteral("1.e5".into()), TokenKind::Eof]);
    assert_eq!(
        kinds("1.abs"),
        vec![TokenKind::IntLiteral("1".into()), TokenKind::Dot, TokenKind::Identifier("abs".into()), TokenKind::Eof]
    );
}
