use babel::parsing::ast::{Expr, Literal};
use babel::parsing::babel::{parse_Term, term_overflows, ParseError, __Matcher};

fn literal(input: &str) -> Literal {
    match parse_Term(input) {
        Ok(Expr::Literal(l)) => l,
        other => panic!("unexpected parse of {:?}: {:?}", input, other),
    }
}

#[test]
fn parses_number() {
    assert_eq!(literal("42"), Literal::I32(42));
}

#[test]
fn parses_largest_number() {
    assert_eq!(literal("2147483647"), Literal::I32(2147483647));
}

#[test]
fn parses_booleans_and_unit() {
    assert_eq!(literal("true"), Literal::Bool(true));
    assert_eq!(literal("false"), Literal::Bool(false));
    assert_eq!(literal("()"), Literal::Unit);
}

#[test]
fn parentheses_give_the_inner_term() {
    assert_eq!(literal("(7)"), Literal::I32(7));
    assert_eq!(literal("((( true )))"), Literal::Bool(true));
    assert_eq!(literal(" ( () )"), Literal::Unit);
}

#[test]
fn wrapping_a_term_in_parentheses_keeps_it() {
    for t in [" 5 ", "(false)", "()", "\u{3000}true"] {
        let wrapped = format!("({})", t);
        assert_eq!(literal(&wrapped), literal(t));
    }
    assert!(parse_Term("1 2").is_ok());
    assert!(parse_Term("(1 2)").is_err());
}

#[test]
fn skips_unicode_white_space() {
    assert_eq!(literal("\u{3000}\t 7\n"), Literal::I32(7));
}

#[test]
fn stops_after_the_token_that_follows_a_term() {
    assert_eq!(literal("1 2"), Literal::I32(1));
    assert_eq!(literal("(1) x y"), Literal::I32(1));
}

#[test]
fn invalid_token_location() {
    match parse_Term("$") {
        Err(ParseError::InvalidToken { location }) => assert_eq!(location, 0),
        other => panic!("{:?}", other),
    }
    match parse_Term("1 $") {
        Err(ParseError::InvalidToken { location }) => assert_eq!(location, 2),
        other => panic!("{:?}", other),
    }
    match parse_Term("\u{3000}-") {
        Err(ParseError::InvalidToken { location }) => assert_eq!(location, 3),
        other => panic!("{:?}", other),
    }
}

#[test]
fn unrecognized_token_where_a_term_starts() {
    match parse_Term("\u{3000}x") {
        Err(ParseError::UnrecognizedToken { token, expected }) => {
            assert_eq!(token, Some((3, (1, "x".to_string()), 4)));
            assert_eq!(
                expected,
                vec!["\"(\"", "\"()\"", "\"false\"", "\"true\"", "r#\"[0-9]+\"#"]
            );
        }
        other => panic!("{:?}", other),
    }
    match parse_Term("i32") {
        Err(ParseError::UnrecognizedToken { token, .. }) => {
            assert_eq!(token, Some((0, (9, "i32".to_string()), 3)))
        }
        other => panic!("{:?}", other),
    }
    match parse_Term("") {
        Err(ParseError::UnrecognizedToken { token, expected }) => {
            assert_eq!(token, None);
            assert_eq!(expected.len(), 5);
        }
        other => panic!("{:?}", other),
    }
}

#[test]
fn unclosed_parenthesis() {
    match parse_Term("(1") {
        Err(ParseError::UnrecognizedToken { token, expected }) => {
            assert_eq!(token, None);
            assert_eq!(expected, vec!["\")\""]);
        }
        other => panic!("{:?}", other),
    }
    match parse_Term("(1 ,") {
        Err(ParseError::UnrecognizedToken { token, expected }) => {
            assert_eq!(token, Some((3, (5, ",".to_string()), 4)));
            assert_eq!(expected, vec!["\")\""]);
        }
        other => panic!("{:?}", other),
    }
}

#[test]
fn lexer_tokens() {
    let mut m = __Matcher::new(" (x_1, true)-> bool truex");
    assert_eq!(m.next().unwrap().unwrap(), (1, (2, "(".to_string()), 2));
    assert_eq!(m.next().unwrap().unwrap(), (2, (1, "x_1".to_string()), 5));
    assert_eq!(m.next().unwrap().unwrap(), (5, (5, ",".to_string()), 6));
    assert_eq!(m.next().unwrap().unwrap(), (7, (10, "true".to_string()), 11));
    assert_eq!(m.next().unwrap().unwrap(), (11, (4, ")".to_string()), 12));
    assert_eq!(m.next().unwrap().unwrap(), (12, (6, "->".to_string()), 14));
    assert_eq!(m.next().unwrap().unwrap(), (15, (7, "bool".to_string()), 19));
    assert_eq!(m.next().unwrap().unwrap(), (20, (1, "truex".to_string()), 25));
    assert!(m.next().is_none());
}

#[test]
fn lexer_unit_and_number() {
    let mut m = __Matcher::new("()007");
    assert_eq!(m.next().unwrap().unwrap(), (0, (3, "()".to_string()), 2));
    assert_eq!(m.next().unwrap().unwrap(), (2, (0, "007".to_string()), 5));
    assert!(m.next().is_none());
}

#[test]
fn overflow_is_detected_where_the_parser_reduces_the_number() {
    assert!(term_overflows("2147483648"));
    assert!(term_overflows("((99999999999999999999))"));
    assert!(!term_overflows("2147483647"));
    assert!(!term_overflows("2147483648 $"));
    assert!(!term_overflows("(1) 99999999999"));
    assert!(!term_overflows("x 99999999999"));
}

#[test]
fn lexer_takes_the_longest_match() {
    let mut m = __Matcher::new("123abc i32x i32");
    assert_eq!(m.next().unwrap().unwrap(), (0, (0, "123".to_string()), 3));
    assert_eq!(m.next().unwrap().unwrap(), (3, (1, "abc".to_string()), 6));
    assert_eq!(m.next().unwrap().unwrap(), (7, (1, "i32x".to_string()), 11));
    assert_eq!(m.next().unwrap().unwrap(), (12, (9, "i32".to_string()), 15));
    assert!(m.next().is_none());
}
