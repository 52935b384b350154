//! Tests of the parser's output and of its handling of malformed
//! patterns, through the `Parser` and `Matcher` types directly.

use minire::chars_of;
use minire::match_pattern;
use minire::Expression;
use minire::Matcher;
use minire::ParseError;
use minire::Parser;
use minire::Token;

fn parse(pattern: &str) -> Result<Expression, ParseError> {
    let mut parser = Parser::new(pattern);
    parser.parse()
}

#[test]
fn literals_parse_to_literal_tokens() {
    let e = parse("ab").unwrap();
    assert_eq!(e.tokens, vec![Token::Literal('a'), Token::Literal('b')]);
}

#[test]
fn quantifiers_fold_into_preceding_token() {
    let e = parse("ca?t+").unwrap();
    assert_eq!(
        e.tokens,
        vec![
            Token::Literal('c'),
            Token::Optional(Box::new(Token::Literal('a'))),
            Token::Repeated(Box::new(Token::Literal('t'))),
        ]
    );
}

#[test]
fn anchors_only_at_the_ends() {
    let e = parse("^a$").unwrap();
    assert_eq!(
        e.tokens,
        vec![Token::StartAnchor, Token::Literal('a'), Token::EndAnchor]
    );
    let inner = parse("a^b$c").unwrap();
    assert_eq!(
        inner.tokens,
        vec![
            Token::Literal('a'),
            Token::Literal('^'),
            Token::Literal('b'),
            Token::Literal('$'),
            Token::Literal('c'),
        ]
    );
}

#[test]
fn classes_collect_their_members() {
    let e = parse("[abc]").unwrap();
    assert_eq!(e.tokens, vec![Token::PositiveClass(vec!['a', 'b', 'c'])]);
    let n = parse("[^ab]").unwrap();
    assert_eq!(n.tokens, vec![Token::NegativeClass(vec!['a', 'b'])]);
}

#[test]
fn group_parses_to_alternation() {
    let e = parse("(a|bc)").unwrap();
    assert_eq!(
        e.tokens,
        vec![Token::Alternation(vec![
            Expression { tokens: vec![Token::Literal('a')] },
            Expression { tokens: vec![Token::Literal('b'), Token::Literal('c')] },
        ])]
    );
}

#[test]
fn reparsing_yields_structurally_equal_expressions() {
    let first = parse("(a|b)c+[de]").unwrap();
    let second = parse("(a|b)c+[de]").unwrap();
    assert_eq!(first, second);
}

#[test]
fn unterminated_class_is_malformed() {
    assert_eq!(parse("[abc"), Err(ParseError::MalformedPattern));
    assert_eq!(match_pattern("bat", "[abc"), Err(ParseError::MalformedPattern));
}

#[test]
fn unterminated_group_is_malformed() {
    assert_eq!(parse("(ab"), Err(ParseError::MalformedPattern));
    assert_eq!(parse("(a|"), Err(ParseError::MalformedPattern));
}

#[test]
fn leading_quantifier_is_malformed() {
    assert_eq!(parse("?a"), Err(ParseError::MalformedPattern));
    assert_eq!(parse("+"), Err(ParseError::MalformedPattern));
    assert_eq!(parse("(?a)"), Err(ParseError::MalformedPattern));
}

#[test]
fn trailing_backslash_is_malformed() {
    assert_eq!(parse("ab\\"), Err(ParseError::MalformedPattern));
}

#[test]
fn cursor_walks_the_pattern() {
    let mut p = Parser::new("ab");
    assert_eq!(p.peek(), 'a');
    assert_eq!(p.get(), 'a');
    assert_eq!(p.get(), 'b');
}

#[test]
fn mtch_reports_consumed_length() {
    let e = parse("ab").unwrap();
    let chars = chars_of("abc");
    assert_eq!(Matcher::mtch(&chars, &e), (true, 2));
    let other = chars_of("xbc");
    assert_eq!(Matcher::mtch(&other, &e), (false, 0));
}

#[test]
fn mtch_main_reports_match_end() {
    let e = parse("b+").unwrap();
    let chars = chars_of("abbbc");
    assert_eq!(Matcher::mtch_main(&chars, &e), (true, 4));
}
