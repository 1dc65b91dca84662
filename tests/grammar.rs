use swasm::grammar::{
    parse_grammar, FormatPart, FormatPattern, GrammarError, MatcherAttribute, Production,
    ProductionInput,
};
use swasm::writer::{compile, write_grammar};

fn lit(s: &str) -> FormatPart {
    FormatPart { attr: None, pattern: FormatPattern::Literal(s.as_bytes().to_vec()) }
}

fn nt(s: &str, attr: Option<MatcherAttribute>) -> FormatPart {
    FormatPart { attr, pattern: FormatPattern::Production(s.as_bytes().to_vec()) }
}

#[test]
fn range_expands_to_one_literal_per_byte() {
    let g = parse_grammar(b"Digit -> 0..9\n").unwrap();
    assert_eq!(g.len(), 1);
    let inputs = &g[0].inputs;
    assert_eq!(inputs.len(), 10);
    for (i, input) in inputs.iter().enumerate() {
        assert_eq!(input.output, None);
        assert_eq!(input.format, vec![lit(&((b'0' + i as u8) as char).to_string())]);
    }
}

#[test]
fn reversed_range_is_empty() {
    let g = parse_grammar(b"X -> 9..0\n").unwrap();
    assert!(g[0].inputs.is_empty());
}

#[test]
fn parses_productions() {
    let text = b"_Expr(env) -> Term* Op_ rest+ => Sum | x\nTerm -> a | B | Cc\n";
    let g = parse_grammar(text).unwrap();
    assert_eq!(
        g,
        vec![
            Production {
                name: b"Expr".to_vec(),
                param: Some(b"env".to_vec()),
                is_token: false,
                inputs: vec![
                    ProductionInput {
                        output: Some(b"Sum".to_vec()),
                        format: vec![
                            nt("Term", Some(MatcherAttribute::Many)),
                            nt("Op", Some(MatcherAttribute::Void)),
                            FormatPart {
                                attr: Some(MatcherAttribute::Many1),
                                pattern: FormatPattern::Literal(b"rest".to_vec()),
                            },
                        ],
                    },
                    ProductionInput { output: None, format: vec![lit("x")] },
                ],
            },
            Production {
                name: b"Term".to_vec(),
                param: None,
                is_token: true,
                inputs: vec![
                    ProductionInput { output: None, format: vec![lit("a")] },
                    ProductionInput { output: None, format: vec![lit("B")] },
                    ProductionInput { output: None, format: vec![nt("Cc", None)] },
                ],
            },
        ]
    );
}

#[test]
fn writes_canonical_text() {
    let text = b"_Expr(env)   ->  Term*   Op_ =>  Sum|x\n\n  Term -> a\n";
    let out = compile(text).unwrap();
    assert_eq!(
        String::from_utf8(out).unwrap(),
        "_Expr(env) -> Term* Op_ => Sum | x \nTerm -> a \n"
    );
}

#[test]
fn round_trip_is_structural() {
    let text = b"_Expr(env) -> Term* Op_ rest+ => Sum | x | => Empty\nTerm -> a | B | Cc\n";
    let g = parse_grammar(text).unwrap();
    let written = write_grammar(&g);
    let again = parse_grammar(&written).unwrap();
    assert_eq!(again, g);
    assert_eq!(write_grammar(&again), written);
}

#[test]
fn duplicate_name_keeps_place_and_last_definition() {
    let g = parse_grammar(b"A -> x\nB -> y\nA -> z\n").unwrap();
    assert_eq!(g.len(), 2);
    assert_eq!(g[0].name, b"A".to_vec());
    assert_eq!(g[0].inputs[0].format, vec![lit("z")]);
    assert_eq!(g[1].name, b"B".to_vec());
}

#[test]
fn last_line_without_newline() {
    let g = parse_grammar(b"A -> x").unwrap();
    assert_eq!(g[0].inputs[0].format, vec![lit("x")]);
}

#[test]
fn missing_arrow() {
    assert_eq!(parse_grammar(b"A x\n"), Err(GrammarError::MissingArrow));
    assert_eq!(parse_grammar(b"A(p) x\n"), Err(GrammarError::MissingArrow));
}

#[test]
fn unterminated_parameter() {
    assert_eq!(parse_grammar(b"A(p -> x\n"), Err(GrammarError::UnterminatedParam));
}

#[test]
fn invalid_utf8() {
    assert_eq!(parse_grammar(b"A -> \xff\n"), Err(GrammarError::InvalidUtf8));
    assert_eq!(parse_grammar(b"\xc3 -> x\n"), Err(GrammarError::InvalidUtf8));
    assert_eq!(parse_grammar(b"A -> a..\xff\n"), Err(GrammarError::InvalidUtf8));
    assert_eq!(parse_grammar(b"A -> x => \xff\n"), Err(GrammarError::InvalidUtf8));
    let g = parse_grammar("A -> \u{e9}t\u{e9}\n".as_bytes()).unwrap();
    assert_eq!(g[0].inputs[0].format, vec![lit("\u{e9}t\u{e9}")]);
}

#[test]
fn multiple_outputs() {
    assert_eq!(parse_grammar(b"A -> x => B C\n"), Err(GrammarError::MultipleOutputs));
}

#[test]
fn first_bad_line_decides() {
    assert_eq!(
        parse_grammar(b"A -> x => B C\nD(e -> y\n"),
        Err(GrammarError::MultipleOutputs)
    );
}

#[test]
fn empty_alternative_round_trips() {
    let g = parse_grammar(b"A -> x | | => Out\n").unwrap();
    assert_eq!(g[0].inputs.len(), 3);
    assert!(g[0].inputs[1].format.is_empty());
    assert_eq!(g[0].inputs[1].output, None);
    let written = write_grammar(&g);
    assert_eq!(parse_grammar(&written).unwrap(), g);
}
