use offchain::artifact::{creation_code_from_hex, CreationCodeError};
use offchain::ast::{OpCode, UntypedAst};
use offchain::sexpr::{parse_string_to_sexpr, sexpr_to_untyped, tokenize, ParseError, SExpr};

fn atom_text(e: &SExpr) -> &str {
    match e {
        SExpr::Atom(s) => s.as_str(),
        SExpr::List(_) => panic!("expected an atom"),
    }
}

#[test]
fn tokenize_splits_parens_and_atoms() {
    let toks = tokenize("((3 5 +) DUP MUL)");
    assert_eq!(toks, vec!["(", "(", "3", "5", "+", ")", "DUP", "MUL", ")"]);
}

#[test]
fn tokenize_handles_whitespace_kinds() {
    assert_eq!(tokenize("  a\tb\n\rc  "), vec!["a", "b", "c"]);
    assert_eq!(tokenize("a\u{a0} b"), vec!["a", "b"]);
    assert_eq!(tokenize("x(y)z"), vec!["x", "(", "y", ")", "z"]);
    assert!(tokenize("   ").is_empty());
}

#[test]
fn parse_nested_lists() {
    let e = parse_string_to_sexpr("(1 (2 3) foo)").unwrap();
    match &e {
        SExpr::List(items) => {
            assert_eq!(items.len(), 3);
            assert_eq!(atom_text(&items[0]), "1");
            match &items[1] {
                SExpr::List(inner) => {
                    assert_eq!(atom_text(&inner[0]), "2");
                    assert_eq!(atom_text(&inner[1]), "3");
                }
                SExpr::Atom(_) => panic!("expected a list"),
            }
            assert_eq!(atom_text(&items[2]), "foo");
        }
        SExpr::Atom(_) => panic!("expected a list"),
    }
}

#[test]
fn parse_errors() {
    assert!(matches!(parse_string_to_sexpr(""), Err(ParseError::UnexpectedEnd)));
    assert!(matches!(parse_string_to_sexpr("(1 2"), Err(ParseError::MissingClosingParen)));
    assert!(matches!(parse_string_to_sexpr(")"), Err(ParseError::UnexpectedClosingParen)));
    match parse_string_to_sexpr("1 2 )") {
        Err(ParseError::ExtraTokens(rest)) => assert_eq!(rest, vec!["2", ")"]),
        other => panic!("unexpected {:?}", other),
    }
}

#[test]
fn atoms_become_literals_and_instructions() {
    let e = parse_string_to_sexpr("((3 5 +) dup Mul foo -7 +12 2147483648 if_else)").unwrap();
    let t = sexpr_to_untyped(&e).unwrap();
    let expected = UntypedAst::Sublist(vec![
        UntypedAst::Sublist(vec![
            UntypedAst::IntLiteral(3),
            UntypedAst::IntLiteral(5),
            UntypedAst::Instruction(OpCode::Plus),
        ]),
        UntypedAst::Instruction(OpCode::Dup),
        UntypedAst::Instruction(OpCode::Noop),
        UntypedAst::Instruction(OpCode::Noop),
        UntypedAst::IntLiteral(-7),
        UntypedAst::IntLiteral(12),
        UntypedAst::Instruction(OpCode::Noop),
        UntypedAst::Instruction(OpCode::IfElse),
    ]);
    assert_eq!(t, expected);
}

#[test]
fn every_keyword_is_recognised() {
    let words = [
        ("+", OpCode::Plus), ("-", OpCode::Minus), ("*", OpCode::Mult), ("dup", OpCode::Dup), ("pop", OpCode::Pop),
        (">", OpCode::GreaterThan), ("<", OpCode::LessThan), ("==", OpCode::Equal), ("!=", OpCode::NotEqual),
        (">=", OpCode::GreaterEqual), ("<=", OpCode::LessEqual), ("sin", OpCode::Sin), ("cos", OpCode::Cos),
        ("sqrt", OpCode::Sqrt), ("abs", OpCode::Abs), ("mod", OpCode::Mod), ("pow", OpCode::Pow), ("pi", OpCode::ConstPi),
        ("e", OpCode::ConstE), ("rand", OpCode::ConstRand), ("bool_to_int", OpCode::BoolToInt),
        ("int_to_bool", OpCode::IntToBool), ("if_then", OpCode::IfThen), ("IF_ELSE", OpCode::IfElse),
    ];
    for (w, op) in words {
        let e = parse_string_to_sexpr(w).unwrap();
        assert_eq!(sexpr_to_untyped(&e).unwrap(), UntypedAst::Instruction(op));
    }
}

#[test]
fn creation_code_strips_prefixes_and_decodes() {
    assert_eq!(creation_code_from_hex("0x6080").unwrap(), vec![0x60, 0x80]);
    assert_eq!(creation_code_from_hex("0x0xAbCd").unwrap(), vec![0xab, 0xcd]);
    assert_eq!(creation_code_from_hex("").unwrap(), Vec::<u8>::new());
    assert_eq!(creation_code_from_hex("0xabc"), Err(CreationCodeError::InvalidHex));
    assert_eq!(creation_code_from_hex("zz"), Err(CreationCodeError::InvalidHex));
}
