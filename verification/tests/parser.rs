use logic_toolkit::formula::Formula;
use logic_toolkit::parser::{
    classify, parse_formula, parse_glyph_sequence, scan, tokenize, Parser, SyntaxError, Token,
};

fn v(n: &str) -> Formula {
    Formula::var(n)
}

fn var(n: &str) -> Token {
    Token::Var(n.to_string())
}

#[test]
fn tokens_of_a_mixed_line() {
    assert_eq!(
        tokenize("P & (Q -> P)"),
        Ok(vec![
            var("P"),
            Token::And,
            Token::LParen,
            var("Q"),
            Token::Implies,
            var("P"),
            Token::RParen
        ])
    );
}

#[test]
fn every_spelling_of_each_connective() {
    assert_eq!(tokenize("&^"), Ok(vec![Token::And, Token::And]));
    assert_eq!(tokenize("||"), Ok(vec![Token::Or, Token::Or]));
    assert_eq!(tokenize("!~\u{ac}"), Ok(vec![Token::Not, Token::Not, Token::Not]));
    assert_eq!(tokenize("->"), Ok(vec![Token::Implies]));
    assert_eq!(tokenize("()"), Ok(vec![Token::LParen, Token::RParen]));
}

#[test]
fn blanks_tabs_and_line_feeds_separate() {
    assert_eq!(tokenize(" \tP\n Q "), Ok(vec![var("P"), var("Q")]));
    assert_eq!(tokenize(""), Ok(vec![]));
    assert_eq!(tokenize("   "), Ok(vec![]));
}

#[test]
fn the_letter_v_scans_as_a_name() {
    assert_eq!(tokenize("a v b"), Ok(vec![var("a"), var("v"), var("b")]));
    assert_eq!(tokenize("v"), Ok(vec![var("v")]));
    assert_eq!(tokenize("avb"), Ok(vec![var("avb")]));
    assert_eq!(tokenize("va"), Ok(vec![var("va")]));
    assert_eq!(tokenize("av"), Ok(vec![var("av")]));
    assert_eq!(tokenize("|v"), Ok(vec![Token::Or, var("v")]));
}

#[test]
fn the_name_v_is_a_variable_where_an_operand_is_due() {
    assert_eq!(parse_formula("v"), Ok(v("v")));
    assert_eq!(parse_formula("(v)"), Ok(v("v")));
    assert_eq!(parse_formula("!v"), Ok(Formula::not(v("v"))));
    assert_eq!(parse_formula("v & x"), Ok(Formula::and(v("v"), v("x"))));
    assert_eq!(parse_formula("va"), Ok(v("va")));
    assert_eq!(parse_formula("P | v"), Ok(Formula::or(v("P"), v("v"))));
    assert_eq!(parse_formula("v -> v"), Ok(Formula::implies(v("v"), v("v"))));
}

#[test]
fn the_name_v_is_a_disjunction_where_a_sign_is_due() {
    assert_eq!(parse_formula("P v Q"), Ok(Formula::or(v("P"), v("Q"))));
    assert_eq!(parse_formula("a v b"), Ok(Formula::or(v("a"), v("b"))));
    assert_eq!(parse_formula("v v v"), Ok(Formula::or(v("v"), v("v"))));
    assert_eq!(parse_formula("P v v"), Ok(Formula::or(v("P"), v("v"))));
    assert_eq!(parse_formula("P v Q v R"), Ok(Formula::or(Formula::or(v("P"), v("Q")), v("R"))));
    assert_eq!(parse_formula("P v Q & R"), Ok(Formula::or(v("P"), Formula::and(v("Q"), v("R")))));
    assert_eq!(parse_formula("(P)v(Q)"), Ok(Formula::or(v("P"), v("Q"))));
    assert_eq!(parse_formula("P v"), Err(SyntaxError::ExpectedOperand { position: 2 }));
    assert_eq!(parse_formula("P V Q"), Err(SyntaxError::TrailingToken { position: 1 }));
    assert_eq!(parse_formula("P vQ"), Err(SyntaxError::TrailingToken { position: 1 }));
}

#[test]
fn names_run_over_letters_and_digits_of_any_script() {
    assert_eq!(tokenize("x1 \u{e9}t\u{e9} \u{3b1}2"), Ok(vec![var("x1"), var("\u{e9}t\u{e9}"), var("\u{3b1}2")]));
    assert_eq!(tokenize("P1&Q2"), Ok(vec![var("P1"), Token::And, var("Q2")]));
}

#[test]
fn a_character_that_starts_no_token_is_an_error() {
    assert_eq!(tokenize("P # Q"), Err(SyntaxError::InvalidCharacter { position: 2 }));
    assert_eq!(tokenize("P_1"), Err(SyntaxError::InvalidCharacter { position: 1 }));
    assert_eq!(tokenize("P\rQ"), Err(SyntaxError::InvalidCharacter { position: 1 }));
    assert_eq!(tokenize("\u{e9}>"), Err(SyntaxError::InvalidCharacter { position: 1 }));
}

#[test]
fn a_dash_needs_its_arrow_head() {
    assert_eq!(tokenize("P - Q"), Err(SyntaxError::IncompleteArrow { position: 3 }));
    assert_eq!(tokenize("P -"), Err(SyntaxError::IncompleteArrow { position: 3 }));
    assert_eq!(tokenize("-"), Err(SyntaxError::IncompleteArrow { position: 1 }));
}

#[test]
fn the_first_error_is_reported() {
    assert_eq!(tokenize("- #"), Err(SyntaxError::IncompleteArrow { position: 1 }));
    assert_eq!(tokenize("# -"), Err(SyntaxError::InvalidCharacter { position: 0 }));
}

#[test]
fn scanning_goes_by_the_given_classes() {
    let glyphs = vec![('P', true), ('&', false), ('Q', true), ('7', true), (' ', false), ('x', false)];
    assert_eq!(scan(&glyphs), Err(SyntaxError::InvalidCharacter { position: 5 }));
    let glyphs = vec![('P', true), ('&', false), ('_', true), ('7', true)];
    assert_eq!(scan(&glyphs), Ok(vec![var("P"), Token::And, var("_7")]));
    let glyphs = vec![('P', true), ('&', true), ('_', true), ('7', true)];
    assert_eq!(scan(&glyphs), Ok(vec![var("P&_7")]));
    let glyphs = vec![('&', true), ('P', true)];
    assert_eq!(scan(&glyphs), Ok(vec![Token::And, var("P")]));
    assert_eq!(
        parse_glyph_sequence(&vec![('_', true), ('|', false), ('_', true)]),
        Ok(Formula::or(v("_"), v("_")))
    );
}

#[test]
fn classes_are_those_of_the_standard_library() {
    assert_eq!(
        classify("a1 _\u{e9}-"),
        vec![('a', true), ('1', true), (' ', false), ('_', false), ('\u{e9}', true), ('-', false)]
    );
}

#[test]
fn implication_groups_to_the_right() {
    assert_eq!(
        parse_formula("P -> Q -> R"),
        Ok(Formula::implies(v("P"), Formula::implies(v("Q"), v("R"))))
    );
}

#[test]
fn conjunction_and_disjunction_group_to_the_left() {
    assert_eq!(parse_formula("P & Q & R"), Ok(Formula::and(Formula::and(v("P"), v("Q")), v("R"))));
    assert_eq!(parse_formula("P | Q | R"), Ok(Formula::or(Formula::or(v("P"), v("Q")), v("R"))));
}

#[test]
fn conjunction_binds_tighter_than_disjunction_and_both_tighter_than_implication() {
    assert_eq!(parse_formula("P | Q & R"), Ok(Formula::or(v("P"), Formula::and(v("Q"), v("R")))));
    assert_eq!(parse_formula("P & Q | R"), Ok(Formula::or(Formula::and(v("P"), v("Q")), v("R"))));
    assert_eq!(
        parse_formula("P | Q -> R & S"),
        Ok(Formula::implies(Formula::or(v("P"), v("Q")), Formula::and(v("R"), v("S"))))
    );
}

#[test]
fn negation_binds_tightest() {
    assert_eq!(parse_formula("!P & Q"), Ok(Formula::and(Formula::not(v("P")), v("Q"))));
    assert_eq!(parse_formula("!!P"), Ok(Formula::not(Formula::not(v("P")))));
    assert_eq!(
        parse_formula("~(P -> Q)"),
        Ok(Formula::not(Formula::implies(v("P"), v("Q"))))
    );
}

#[test]
fn parentheses_group() {
    assert_eq!(parse_formula("P & (Q | R)"), Ok(Formula::and(v("P"), Formula::or(v("Q"), v("R")))));
    assert_eq!(
        parse_formula("(P -> Q) -> R"),
        Ok(Formula::implies(Formula::implies(v("P"), v("Q")), v("R")))
    );
    assert_eq!(parse_formula("((P))"), Ok(v("P")));
}

#[test]
fn a_token_after_the_formula_is_an_error() {
    assert_eq!(parse_formula("P Q"), Err(SyntaxError::TrailingToken { position: 1 }));
    assert_eq!(parse_formula("P )"), Err(SyntaxError::TrailingToken { position: 1 }));
    assert_eq!(parse_formula("P & Q ! R"), Err(SyntaxError::TrailingToken { position: 3 }));
    assert_eq!(parse_formula("(P) (Q)"), Err(SyntaxError::TrailingToken { position: 3 }));
    assert_eq!(parse_formula("P -> Q )"), Err(SyntaxError::TrailingToken { position: 3 }));
    assert_eq!(
        parse_glyph_sequence(&vec![('P', true), (' ', false), ('Q', true)]),
        Err(SyntaxError::TrailingToken { position: 1 })
    );
}

#[test]
fn a_missing_operand_is_an_error_at_its_token() {
    assert_eq!(parse_formula(""), Err(SyntaxError::ExpectedOperand { position: 0 }));
    assert_eq!(parse_formula("P &"), Err(SyntaxError::ExpectedOperand { position: 2 }));
    assert_eq!(parse_formula("P & )"), Err(SyntaxError::ExpectedOperand { position: 2 }));
    assert_eq!(parse_formula(")"), Err(SyntaxError::ExpectedOperand { position: 0 }));
    assert_eq!(parse_formula("P -> | Q"), Err(SyntaxError::ExpectedOperand { position: 2 }));
    assert_eq!(parse_formula("!"), Err(SyntaxError::ExpectedOperand { position: 1 }));
}

#[test]
fn a_missing_closing_parenthesis_is_an_error_where_it_was_due() {
    assert_eq!(parse_formula("(P"), Err(SyntaxError::ExpectedToken { position: 2 }));
    assert_eq!(parse_formula("(P & Q R)"), Err(SyntaxError::ExpectedToken { position: 4 }));
    assert_eq!(parse_formula("((P)"), Err(SyntaxError::ExpectedToken { position: 4 }));
}

#[test]
fn a_scanning_error_comes_before_any_parse_error() {
    assert_eq!(parse_formula("& # P"), Err(SyntaxError::InvalidCharacter { position: 2 }));
}

#[test]
fn parser_can_be_driven_by_hand() {
    let mut parser = Parser::new(vec![var("P"), Token::Or, var("Q"), Token::RParen, var("R")]);
    assert_eq!(parser.parse(), Ok(Formula::or(v("P"), v("Q"))));
    assert_eq!(parser.finish(), Err(SyntaxError::TrailingToken { position: 3 }));
    assert_eq!(parser.parse(), Err(SyntaxError::ExpectedOperand { position: 3 }));
    let mut parser = Parser::new(vec![var("P"), var("v"), var("Q")]);
    assert_eq!(parser.parse(), Ok(Formula::or(v("P"), v("Q"))));
    assert_eq!(parser.finish(), Ok(()));
}

#[test]
fn rendering_with_ascii_signs_parses_back() {
    let f = Formula::implies(
        Formula::not(Formula::and(v("P"), Formula::or(v("Q"), Formula::not(v("R"))))),
        Formula::or(v("P"), v("S")),
    );
    assert_eq!(parse_formula("(!(P & (Q | !R)) -> (P | S))"), Ok(f));
}

#[test]
fn token_equality_and_clone() {
    assert_eq!(var("P").clone(), var("P"));
    assert_ne!(var("P"), var("Q"));
    assert_ne!(Token::And, Token::Or);
    assert_eq!(Token::Implies.clone(), Token::Implies);
}

#[test]
fn parentheses_around_a_formula_change_nothing() {
    for text in ["P", "P & Q | R", "!P -> Q v R", "(P -> Q) -> R", "a v b v c"] {
        let inside = parse_formula(text);
        assert!(inside.is_ok());
        assert_eq!(parse_formula(&format!("({})", text)), inside);
        assert_eq!(parse_formula(&format!("(({}))", text)), inside);
    }
}

#[test]
fn blanks_between_tokens_change_nothing() {
    let tight = tokenize("(P&Q)->!R|x1");
    assert!(tight.is_ok());
    assert_eq!(tokenize(" ( P & Q ) -> ! R | x1 "), tight);
    assert_eq!(tokenize("\t(\nP  &\t\tQ)\n->\n!R   |   x1"), tight);
    assert_eq!(parse_formula("P&Q"), parse_formula("  P   &   Q  "));
}
