use swasm::error::{Error, ErrorKind};
use swasm::iter::StreamMap;
use swasm::lexer::Lexer;
use swasm::table::{classify, Consume, LexerState, TableTrans, TransitionTable};
use swasm::token::{parse_int, scan_decimal, Decimal, Token, TokenFromBytes, TokenType, VoidError};

fn lex(table: &TransitionTable, input: &[u8]) -> Result<Vec<Token>, Error> {
    let mut lexer = Lexer::new("test", table);
    let mut out = Vec::new();
    for &c in input {
        lexer.push_char(c, &mut out)?;
    }
    Ok(out)
}

fn float(text: &str) -> Token {
    Token::Float(Decimal::from_bytes(text.as_bytes()).unwrap())
}

fn ident(text: &str) -> Token {
    Token::Ident(text.as_bytes().to_vec())
}

const STATES: [LexerState; 8] = [
    LexerState::Ready,
    LexerState::Comment,
    LexerState::Ident,
    LexerState::Sign,
    LexerState::Int,
    LexerState::Float,
    LexerState::String,
    LexerState::StringEscape,
];

#[test]
fn table_is_total() {
    let table = TransitionTable::new();
    for s in STATES {
        for c in 0..=255u8 {
            assert_eq!(table.lookup(s, c), classify(s, c));
        }
    }
}

#[test]
fn table_entries() {
    let table = TransitionTable::new();
    assert_eq!(
        table.lookup(LexerState::Ready, b'('),
        Ok(TableTrans::output(LexerState::Ready, Consume::Skip, TokenType::OpenParen))
    );
    assert_eq!(
        table.lookup(LexerState::Ident, b' '),
        Ok(TableTrans::output(LexerState::Ready, Consume::Reprocess, TokenType::Ident))
    );
    assert_eq!(
        table.lookup(LexerState::Int, b'.'),
        Ok(TableTrans::empty(LexerState::Float, Consume::Append))
    );
    assert_eq!(
        table.lookup(LexerState::Sign, b'7'),
        Ok(TableTrans::empty(LexerState::Int, Consume::Append))
    );
    assert_eq!(
        table.lookup(LexerState::String, b'\\'),
        Ok(TableTrans::empty(LexerState::StringEscape, Consume::Skip))
    );
    assert_eq!(table.lookup(LexerState::Ready, b','), Err(()));
    assert_eq!(table.lookup(LexerState::Ready, b'['), Err(()));
    assert_eq!(
        table.lookup(LexerState::Comment, 0x80),
        Ok(TableTrans::empty(LexerState::Comment, Consume::Skip))
    );
    assert_eq!(table.lookup(LexerState::Ready, 0x7f), Err(()));
    assert_eq!(table.lookup(LexerState::Ready, 0x0b), Err(()));
    assert_eq!(
        table.lookup(LexerState::Ready, 0xc3),
        Ok(TableTrans::empty(LexerState::Ident, Consume::Append))
    );
    assert_eq!(
        table.lookup(LexerState::String, 0x01),
        Ok(TableTrans::empty(LexerState::String, Consume::Append))
    );
    assert_eq!(
        table.lookup(LexerState::Int, 0xc3),
        Ok(TableTrans::empty(LexerState::Ident, Consume::Append))
    );
    assert_eq!(
        table.lookup(LexerState::Comment, b'x'),
        Ok(TableTrans::empty(LexerState::Comment, Consume::Skip))
    );
}

#[test]
fn end_to_end_tokens() {
    let table = TransitionTable::new();
    let tokens = lex(&table, b"(+ 1 2.5 \"hi\")\n").unwrap();
    assert_eq!(
        tokens,
        vec![
            Token::OpenParen,
            ident("+"),
            Token::Int(1),
            float("2.5"),
            Token::String(b"hi".to_vec()),
            Token::CloseParen,
        ]
    );
    match &tokens[3] {
        Token::Float(d) => {
            let value: f64 = std::str::from_utf8(d.text()).unwrap().parse().unwrap();
            assert_eq!(value, 2.5);
        }
        _ => panic!("expected a float"),
    }
}

#[test]
fn stream_adapter_yields_tokens_in_order() {
    let table = TransitionTable::new();
    let lexer = Lexer::new("stream", &table);
    let mut stream = lexer.iter(b"(a 12)\n".to_vec());
    let mut got = Vec::new();
    while let Some(r) = stream.next() {
        got.push(r.unwrap());
    }
    assert_eq!(got, vec![Token::OpenParen, ident("a"), Token::Int(12), Token::CloseParen]);
}

#[test]
fn stream_adapter_reports_error() {
    let table = TransitionTable::new();
    let lexer = Lexer::new("stream", &table);
    let mut stream = lexer.iter(vec![b'a', b' ', 0x01]);
    assert_eq!(stream.next().unwrap().unwrap(), ident("a"));
    let e = stream.next().unwrap().unwrap_err();
    assert_eq!(e.kind, ErrorKind::InvalidCharacter(0x01));
    assert_eq!(e.file_name, "stream");
}

#[test]
fn produce_gives_two_tokens_for_one_byte() {
    let table = TransitionTable::new();
    let mut lexer = Lexer::new("t", &table);
    assert!(lexer.produce(b'a').is_empty());
    let out = lexer.produce(b')');
    assert_eq!(out.len(), 2);
    assert_eq!(out[0].as_ref().unwrap(), &ident("a"));
    assert_eq!(out[1].as_ref().unwrap(), &Token::CloseParen);
}

#[test]
fn line_counter_moves_on_newline_only() {
    let table = TransitionTable::new();
    let mut lexer = Lexer::new("lines", &table);
    let mut out = Vec::new();
    assert_eq!(lexer.line(), 0);
    lexer.push_char(b'a', &mut out).unwrap();
    assert_eq!(lexer.line(), 0);
    lexer.push_char(b'\n', &mut out).unwrap();
    assert_eq!(lexer.line(), 1);
    lexer.push_char(b'b', &mut out).unwrap();
    assert_eq!(lexer.line(), 1);
    lexer.push_char(b' ', &mut out).unwrap();
    let e = lexer.push_char(0x01, &mut out).unwrap_err();
    assert_eq!(e.line, 1);
    assert_eq!(e.kind, ErrorKind::InvalidCharacter(0x01));
}

#[test]
fn control_byte_in_ready_fails() {
    let table = TransitionTable::new();
    let mut lexer = Lexer::new("ctl", &table);
    let mut out = Vec::new();
    let e = lexer.push_char(0x01, &mut out).unwrap_err();
    assert_eq!(e.kind, ErrorKind::InvalidCharacter(0x01));
    assert_eq!(e.line, 0);
    assert_eq!(e.file_name, "ctl");
    assert!(out.is_empty());
    assert_eq!(e.description(), "Lexer Error: Invalid Character");
}

#[test]
fn error_appends_nothing() {
    let table = TransitionTable::new();
    let mut lexer = Lexer::new("t", &table);
    let mut out = Vec::new();
    lexer.push_char(b'a', &mut out).unwrap();
    let e = lexer.push_char(b'[', &mut out).unwrap_err();
    assert_eq!(e.kind, ErrorKind::InvalidCharacter(b'['));
    assert!(out.is_empty());
}

#[test]
fn pending_buffer_empty_after_emission() {
    let table = TransitionTable::new();
    let mut lexer = Lexer::new("buf", &table);
    let mut out = Vec::new();
    assert!(lexer.pending().is_empty());
    assert_eq!(lexer.state(), LexerState::Ready);
    for &c in b"abc" {
        lexer.push_char(c, &mut out).unwrap();
    }
    assert_eq!(lexer.pending(), b"abc");
    lexer.push_char(b' ', &mut out).unwrap();
    assert_eq!(out, vec![ident("abc")]);
    assert!(lexer.pending().is_empty());
    for &c in b"\"x y\"" {
        lexer.push_char(c, &mut out).unwrap();
    }
    assert_eq!(out.len(), 2);
    assert!(lexer.pending().is_empty());
}

#[test]
fn keywords_take_precedence() {
    let table = TransitionTable::new();
    assert_eq!(TokenType::Ident.parse(b"if"), Ok(Token::If));
    assert_eq!(TokenType::Ident.parse(b"quote"), Ok(Token::Quote));
    assert_eq!(TokenType::Ident.parse(b"lambda"), Ok(Token::Lambda));
    assert_eq!(TokenType::Ident.parse(b"iffy"), Ok(ident("iffy")));
    assert_eq!(TokenType::Ident.parse(b"quotes"), Ok(ident("quotes")));
    assert_eq!(lex(&table, b"(if iffy)\n").unwrap(), vec![
        Token::OpenParen,
        Token::If,
        ident("iffy"),
        Token::CloseParen,
    ]);
}

#[test]
fn decode_fixed_kinds() {
    assert_eq!(TokenType::OpenParen.parse(b""), Ok(Token::OpenParen));
    assert_eq!(TokenType::OpenParen.parse(b"("), Err(VoidError));
    assert_eq!(TokenType::CloseParen.parse(b""), Ok(Token::CloseParen));
    assert_eq!(TokenType::If.parse(b"if"), Ok(Token::If));
    assert_eq!(TokenType::If.parse(b"iff"), Err(VoidError));
    assert_eq!(TokenType::Quote.parse(b"quote"), Ok(Token::Quote));
    assert_eq!(TokenType::Lambda.parse(b"lambd"), Err(VoidError));
    assert_eq!(TokenType::Bool.parse(b"t"), Ok(Token::Bool(true)));
    assert_eq!(TokenType::Bool.parse(b"f"), Ok(Token::Bool(false)));
    assert_eq!(TokenType::Bool.parse(b"#t"), Err(VoidError));
    assert_eq!(TokenType::String.parse(b"a\\\"b"), Ok(Token::String(b"a\\\"b".to_vec())));
}

#[test]
fn decode_integers() {
    assert_eq!(parse_int(b"12"), Some(12));
    assert_eq!(parse_int(b"+12"), Some(12));
    assert_eq!(parse_int(b"-12"), Some(-12));
    assert_eq!(parse_int(b"0"), Some(0));
    assert_eq!(parse_int(b"9223372036854775807"), Some(i64::MAX));
    assert_eq!(parse_int(b"-9223372036854775808"), Some(i64::MIN));
    assert_eq!(parse_int(b"9223372036854775808"), None);
    assert_eq!(parse_int(b"+"), None);
    assert_eq!(parse_int(b""), None);
    assert_eq!(parse_int(b"1a"), None);
    assert_eq!(parse_int(b"+-1"), None);
    assert_eq!(TokenType::Int.parse(b"-7"), Ok(Token::Int(-7)));
    assert_eq!(<i64 as TokenFromBytes>::from_bytes(b"x"), Err(VoidError));
}

#[test]
fn decode_decimals() {
    assert!(scan_decimal(b"2.5"));
    assert!(scan_decimal(b"+0.5"));
    assert!(scan_decimal(b"-0.5"));
    assert!(scan_decimal(b"1."));
    assert!(scan_decimal(b".5"));
    assert!(scan_decimal(b"12"));
    assert!(!scan_decimal(b"."));
    assert!(!scan_decimal(b"1.2.3"));
    assert!(!scan_decimal(b"1e5"));
    assert!(!scan_decimal(b"-"));
    assert_eq!(float("-0.5").clone(), TokenType::Float.parse(b"-0.5").unwrap());
    assert_eq!(TokenType::Float.parse(b"x"), Err(VoidError));
}

#[test]
fn numbers_and_signs() {
    let table = TransitionTable::new();
    let tokens = lex(&table, b"+12 -12 +0.5 -0.5 + - +a 1.2.3 id.ent+-\n").unwrap();
    assert_eq!(
        tokens,
        vec![
            Token::Int(12),
            Token::Int(-12),
            float("+0.5"),
            float("-0.5"),
            ident("+"),
            ident("-"),
            ident("+a"),
            ident("1.2.3"),
            ident("id.ent+-"),
        ]
    );
}

#[test]
fn integer_out_of_range_is_an_invalid_token() {
    let table = TransitionTable::new();
    let e = lex(&table, b"99999999999999999999 ").unwrap_err();
    assert_eq!(e.kind, ErrorKind::InvalidToken(TokenType::Int));
    assert_eq!(e.description(), "Lexer Error: Invalid Token");
}

#[test]
fn comments_and_escapes() {
    let table = TransitionTable::new();
    let tokens = lex(&table, b"; note (x)\n\"a\\\"b\" z\n").unwrap();
    assert_eq!(tokens, vec![Token::String(b"a\"b".to_vec()), ident("z")]);
}

#[test]
fn non_ascii_text_passes_through() {
    let table = TransitionTable::new();
    let text = "; caf\u{e9}\n(\u{e9}t\u{e9} \"\u{e9}\" 1\u{e9})\n";
    let tokens = lex(&table, text.as_bytes()).unwrap();
    assert_eq!(
        tokens,
        vec![
            Token::OpenParen,
            ident("\u{e9}t\u{e9}"),
            Token::String("\u{e9}".as_bytes().to_vec()),
            ident("1\u{e9}"),
            Token::CloseParen,
        ]
    );
}

#[test]
fn control_bytes_only_fail_in_ready() {
    let table = TransitionTable::new();
    for c in [0x00u8, 0x08, 0x0b, 0x0e, 0x1f, 0x7f] {
        let e = lex(&table, &[c]).unwrap_err();
        assert_eq!(e.kind, ErrorKind::InvalidCharacter(c));
    }
    assert_eq!(lex(&table, b"a\x01b ").unwrap(), vec![Token::Ident(b"a\x01b".to_vec())]);
    assert_eq!(lex(&table, b"\"\x7f\"").unwrap(), vec![Token::String(vec![0x7f])]);
    assert!(lex(&table, b";\x00\x7f\n").unwrap().is_empty());
}

/// How the lexer reads data that is malformed as a datum: none of these
/// inputs is a lexical error, and what makes them malformed (a `#` word that
/// is no boolean, a dangling sign or dot, an unterminated string or list) is
/// left to whatever reads the tokens.
#[test]
fn test_invalid_node() {
    let table = TransitionTable::new();
    let with_newline = |s: &str| {
        let mut v = s.as_bytes().to_vec();
        v.push(b'\n');
        v
    };
    // `#...` words are identifiers, never booleans.
    for s in ["#", "#tr", "#fa", "#abc"] {
        assert_eq!(lex(&table, &with_newline(s)).unwrap(), vec![ident(s)]);
    }
    // A sign or a dot not followed by digits makes an identifier, not a number.
    for s in [".1", "+a", "-a", ".a"] {
        assert_eq!(lex(&table, &with_newline(s)).unwrap(), vec![ident(s)]);
    }
    assert_eq!(lex(&table, &with_newline("1.")).unwrap(), vec![float("1.")]);
    // An unterminated string yields no token and leaves the lexer in a string.
    for s in ["\"", "\"abc", r#""\""#] {
        let mut lexer = Lexer::new("t", &table);
        let mut out = Vec::new();
        for c in with_newline(s) {
            lexer.push_char(c, &mut out).unwrap();
        }
        assert!(out.is_empty());
        assert_eq!(lexer.state(), LexerState::String);
    }
    // Unbalanced lists: more opening than closing parentheses.
    for s in ["(", "(#t 12 a", "(a .", "(. b"] {
        let tokens = lex(&table, &with_newline(s)).unwrap();
        let opens = tokens.iter().filter(|t| **t == Token::OpenParen).count();
        let closes = tokens.iter().filter(|t| **t == Token::CloseParen).count();
        assert_eq!(opens, closes + 1);
    }
}

#[test]
fn token_text() {
    assert_eq!(Token::OpenParen.text(), b"(");
    assert_eq!(Token::CloseParen.text(), b")");
    assert_eq!(Token::Quote.text(), b"'");
    assert_eq!(Token::Lambda.text(), b"lambda");
    assert_eq!(Token::If.text(), b"if");
    assert_eq!(ident("a1").text(), b"a1");
    assert_eq!(Token::Bool(true).text(), b"#t");
    assert_eq!(Token::Bool(false).text(), b"#f");
    assert_eq!(Token::Int(0).text(), b"0");
    assert_eq!(Token::Int(-120).text(), b"-120");
    assert_eq!(Token::Int(i64::MAX).text(), b"9223372036854775807");
    assert_eq!(Token::Int(i64::MIN).text(), b"-9223372036854775808");
    assert_eq!(float("+0.5").text(), b"+0.5");
    assert_eq!(Token::String(b"a\"b\\c".to_vec()).text(), b"\"a\\\"b\\\\c\"");
}

#[test]
fn string_text_is_debug_form() {
    let samples = [
        "",
        "hi",
        "say \"hi\" \\ ok",
        "line\nfeed\ttab\rret",
        "nul\0 bell\x07 esc\x1b del\x7f unit\x1f",
        "it's",
    ];
    for s in samples {
        let t = Token::String(s.as_bytes().to_vec());
        assert_eq!(String::from_utf8(t.text()).unwrap(), format!("{:?}", s));
    }
    assert_eq!(Token::String(vec![0x0a]).text(), b"\"\\n\"");
}

#[test]
fn error_message_text() {
    let table = TransitionTable::new();
    for c in [0x01u8, b'[', b'\'', b',', 0x7f] {
        let mut input = b"a\n\n".to_vec();
        input.push(c);
        let e = lex(&table, &input).unwrap_err();
        let expected = format!(
            "Error (test:2): Invalid character '{}'",
            (c as char).escape_default()
        );
        assert_eq!(String::from_utf8(e.message()).unwrap(), expected);
    }
    let e = lex(&table, b"99999999999999999999 ").unwrap_err();
    assert_eq!(String::from_utf8(e.message()).unwrap(), "Error (test:0): Invalid token");
}
