use annals::error::{AnnalsError, ParseError};
use annals::parse::Token;
use annals::rule::Rule;

#[test]
fn rule_test_template_valid() {
    assert!(Rule::new("a").is_ok());
    assert!(Rule::new("Hello").is_ok());
    assert!(Rule::new("<w>").is_ok());
    assert!(Rule::new("<a_snake>").is_ok());
    assert!(Rule::new("Hello, <a_snake>!").is_ok());
    assert!(Rule::new("Hello, <a_snake>, who is <disposition>!").is_ok());
}

#[test]
fn rule_test_template_invalid() {
    assert!(Rule::new("").is_err());
    assert!(Rule::new("<").is_err());
    assert!(Rule::new(">").is_err());
    assert!(Rule::new("Hello <!").is_err());
    assert!(Rule::new("Hello >!").is_err());
    assert!(Rule::new("<>").is_err());
    assert!(Rule::new("<<>").is_err());
    assert!(Rule::new("<><").is_err());
    assert!(Rule::new("<><>").is_err());
    assert!(Rule::new("<,>").is_err());
}

#[test]
fn rule_keeps_text_and_tokens() {
    let rule = Rule::new("Hello, <a_snake>!").unwrap();
    assert_eq!(rule.literal(), "Hello, <a_snake>!");
    assert_eq!(rule.len(), 3);
    assert!(!rule.is_empty());
    assert_eq!(
        rule.tokens(),
        &[
            Token::Literal("Hello, ".into()),
            Token::NonTerminal("a_snake".into()),
            Token::Literal("!".into()),
        ][..]
    );
    let walked: Vec<&Token> = rule.iter().collect();
    assert_eq!(walked.len(), 3);
    assert_eq!(walked[1], &Token::NonTerminal("a_snake".into()));

    let owned = Rule::from_string(String::from("Hello, <a_snake>!")).unwrap();
    assert_eq!(owned, rule);
}

#[test]
fn rule_error_names_the_rule() {
    match Rule::new("<@some binding>") {
        Err(AnnalsError::InvalidRule { err, expr }) => {
            assert_eq!(err, ParseError::InvalidName(1, 14));
            assert_eq!(expr, "<@some binding>");
        }
        other => panic!("unexpected: {:?}", other),
    }
    match Rule::from_string(String::new()) {
        Err(AnnalsError::InvalidRule { err, expr }) => {
            assert_eq!(err, ParseError::EmptyRule);
            assert_eq!(expr, "");
        }
        other => panic!("unexpected: {:?}", other),
    }
}
