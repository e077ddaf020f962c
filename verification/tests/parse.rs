use annals::error::ParseError;
use annals::parse::{make_expr, Command, Token};

fn evaluates_to(input: &str, tokens: &[Token]) {
    for (lhs, rhs) in make_expr(input).unwrap().iter().zip(tokens.iter()) {
        assert_eq!(lhs, rhs);
    }
}

fn parses_exactly(input: &str, tokens: &[Token]) {
    let parsed = make_expr(input).unwrap();
    assert_eq!(parsed.len(), tokens.len());
    evaluates_to(input, tokens);
}

fn fails_with(input: &str, expected: ParseError) {
    match make_expr(input) {
        Err(error) => assert_eq!(error, expected, "Unexpected error: {}", error.message()),
        Ok(_) => panic!("Got Ok(_) instead of Err(_)!"),
    }
}

#[test]
fn test_expr() {
    evaluates_to(
        "This is an expression with one <substitution> symbol.",
        &[
            Token::Literal("This is an expression with one ".into()),
            Token::NonTerminal("substitution".into()),
            Token::Literal(" symbol.".into()),
        ],
    );

    evaluates_to(
        "This is <(cap one)> a complex expression with <!sticky> and <@bind>!",
        &[
            Token::Literal("This is ".into()),
            Token::Expression(Command::Capitalize, Box::new(Token::NonTerminal("one".into()))),
            Token::Literal(" a complex expression with ".into()),
            Token::StickyNonTerminal("sticky".into()),
            Token::Literal(" and ".into()),
            Token::Binding("bind".into()),
            Token::Literal("!".into()),
        ],
    );
}

#[test]
fn test_escaped_subst() {
    let exprs = make_expr("Expr with \\<escaped brackets\\>").unwrap();
    assert_eq!(exprs[0], Token::Literal("Expr with <escaped brackets>".into()));

    let exprs = make_expr("Expr with \\<\\< unbalanced escaped brackets\\>").unwrap();
    assert_eq!(exprs[0], Token::Literal("Expr with << unbalanced escaped brackets>".into()));
}

#[test]
fn test_nonterminal() {
    let exprs = make_expr("<aa>").unwrap();
    assert_eq!(exprs[0], Token::NonTerminal("aa".to_string()));

    evaluates_to(
        "<aa><bb><cc>",
        &[
            Token::NonTerminal("aa".to_string()),
            Token::NonTerminal("bb".to_string()),
            Token::NonTerminal("cc".to_string()),
        ],
    );

    evaluates_to(
        "<aa> <cc>",
        &[
            Token::NonTerminal("aa".to_string()),
            Token::Literal(" ".to_string()),
            Token::NonTerminal("cc".to_string()),
        ],
    );
}

#[test]
fn test_sticky_nonterminal() {
    evaluates_to("<!foo>", &[Token::StickyNonTerminal("foo".to_string())]);
    evaluates_to(
        "This is a <!sticky> nonterminal.",
        &[
            Token::Literal("This is a ".to_string()),
            Token::StickyNonTerminal("sticky".to_string()),
            Token::Literal(" nonterminal.".to_string()),
        ],
    );
}

#[test]
fn test_binding() {
    let exprs = make_expr("<@ab>").unwrap();
    assert_eq!(exprs[0], Token::Binding("ab".to_string()));

    let exprs = make_expr("<@bind1>").unwrap();
    assert_eq!(exprs[0], Token::Binding("bind1".to_string()));

    let exprs = make_expr("<@beautiful_snake>").unwrap();
    assert_eq!(exprs[0], Token::Binding("beautiful_snake".to_string()));
}

#[test]
fn test_expression() {
    evaluates_to(
        "<(an animal)>",
        &[Token::Expression(
            Command::IndefiniteArticle,
            Box::new(Token::NonTerminal("animal".to_string())),
        )],
    );
}

#[test]
fn test_nested_expression() {
    let inner = Box::new(Token::Expression(
        Command::Capitalize,
        Box::new(Token::NonTerminal("animal".to_string())),
    ));
    evaluates_to("<(an (cap animal))>", &[Token::Expression(Command::IndefiniteArticle, inner)]);
}

#[test]
fn parse_test_range() {
    evaluates_to("<#39-100>", &[Token::Range(39, 100)]);
}

#[test]
fn test_err_empty_token() {
    fails_with("<>", ParseError::ZeroLengthSubst(1, 2));
    fails_with("<@>", ParseError::InvalidName(1, 2));
    fails_with("<!>", ParseError::InvalidName(1, 2));
    fails_with("<()>", ParseError::ZeroLengthSubst(2, 3));
}

#[test]
fn test_err_zero_length() {
    fails_with("Zero-length <>", ParseError::ZeroLengthSubst(13, 14));
    fails_with("Zero-length <> unaffected by post-string", ParseError::ZeroLengthSubst(13, 14));
}

#[test]
fn test_bad_binding() {
    fails_with("<@>", ParseError::InvalidName(1, 2));
    fails_with("<@some binding>", ParseError::InvalidName(1, 14));
    fails_with("<@ binding>", ParseError::InvalidName(1, 10));
}

#[test]
fn test_unbalanced() {
    fails_with("<<", ParseError::UnbalancedBrackets);
    fails_with("<>>", ParseError::UnbalancedBrackets);
    fails_with("This is an <<unbalanced> expression", ParseError::UnbalancedBrackets);
}

#[test]
fn parses_every_token_of_a_rule() {
    parses_exactly(
        "This is <(cap one)> a complex expression with <!sticky> and <@bind>!",
        &[
            Token::Literal("This is ".into()),
            Token::Expression(Command::Capitalize, Box::new(Token::NonTerminal("one".into()))),
            Token::Literal(" a complex expression with ".into()),
            Token::StickyNonTerminal("sticky".into()),
            Token::Literal(" and ".into()),
            Token::Binding("bind".into()),
            Token::Literal("!".into()),
        ],
    );
    parses_exactly("<#39-100>", &[Token::Range(39, 100)]);
    parses_exactly("<aa> <cc>", &[
        Token::NonTerminal("aa".into()),
        Token::Literal(" ".into()),
        Token::NonTerminal("cc".into()),
    ]);
}

#[test]
fn escaped_rule_is_one_literal() {
    parses_exactly(
        "Expr with \\<escaped brackets\\>",
        &[Token::Literal("Expr with <escaped brackets>".into())],
    );
    parses_exactly("plain text", &[Token::Literal("plain text".into())]);
    parses_exactly("a \\ b", &[Token::Literal("a \\ b".into())]);
}

#[test]
fn literal_only_rules_give_back_their_text() {
    for text in ["a", "Hello", "tail\\", "\\<\\>", "x \\< y \\> z", "\\\\<"] {
        let tokens = make_expr(text).unwrap();
        let mut joined = String::new();
        for token in tokens.iter() {
            match token {
                Token::Literal(part) => joined.push_str(part),
                other => panic!("not a literal: {:?}", other),
            }
        }
        assert_eq!(joined, text.replace("\\<", "<").replace("\\>", ">"));
    }
}

#[test]
fn empty_rule_is_rejected() {
    fails_with("", ParseError::EmptyRule);
}

#[test]
fn brackets_that_do_not_pair_are_rejected() {
    for text in ["<", ">", "<<", "<>>", "<a><", "Hello <!", "Hello >!", "a \\< b >"] {
        fails_with(text, ParseError::UnbalancedBrackets);
    }
}

#[test]
fn commands_have_two_spellings() {
    let cases = [
        ("cap", Command::Capitalize),
        ("capitalize", Command::Capitalize),
        ("low", Command::Lowercase),
        ("lowercase", Command::Lowercase),
        ("title", Command::Titlecase),
        ("titlecase", Command::Titlecase),
        ("a", Command::IndefiniteArticle),
        ("an", Command::IndefiniteArticle),
    ];
    for (word, command) in cases {
        let rule = format!("<({} thing)>", word);
        parses_exactly(
            &rule,
            &[Token::Expression(command, Box::new(Token::NonTerminal("thing".into())))],
        );
    }
}

#[test]
fn command_errors_carry_their_spans() {
    fails_with("<(shout thing)>", ParseError::UnknownCommand(1, 6));
    fails_with("<(cap)>", ParseError::InvalidExpression(1, 6));
    fails_with("<(cap (x)>", ParseError::InvalidExpression(1, 9));
    fails_with("<(cap )>", ParseError::ZeroLengthSubst(4, 7));
    fails_with("<(cap some thing)>", ParseError::InvalidName(4, 17));
}

#[test]
fn ranges_need_two_numbers() {
    parses_exactly("<#0-1>", &[Token::Range(0, 1)]);
    parses_exactly("<#7-3>", &[Token::Range(7, 3)]);
    fails_with("<#12>", ParseError::InvalidRange(1, 4));
    fails_with("<#1-2-3>", ParseError::InvalidRange(1, 7));
    fails_with("<#a-b>", ParseError::InvalidRange(1, 5));
    fails_with("<#-5>", ParseError::InvalidRange(1, 4));
    fails_with("<#5->", ParseError::InvalidRange(1, 4));
    fails_with(
        "<#1-99999999999999999999999999>",
        ParseError::InvalidRange(1, 30),
    );
}

#[test]
fn names_follow_the_name_pattern() {
    parses_exactly("<a-b_c9>", &[Token::NonTerminal("a-b_c9".into())]);
    parses_exactly("<caf\u{e9}>", &[Token::NonTerminal("caf\u{e9}".into())]);
    fails_with("<,>", ParseError::InvalidName(1, 2));
    fails_with("<a b>", ParseError::InvalidName(1, 4));
    fails_with("<@@a>", ParseError::InvalidName(1, 4));
    fails_with("<$x:leaf>", ParseError::InvalidName(1, 8));
    fails_with("<$x>", ParseError::InternalError);
}

#[test]
fn a_closing_bracket_ends_the_pending_text() {
    parses_exactly("a>b<c", &[
        Token::NonTerminal("a".into()),
        Token::Literal("b".into()),
        Token::Literal("c".into()),
    ]);
}
