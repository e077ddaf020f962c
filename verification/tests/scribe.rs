use annals::cognate::Cognate;
use annals::dict::StrMap;
use annals::error::{AnnalsError, ParseError};
use annals::group::{Group, GroupListIter};
use annals::parse::{Command, Token};
use annals::scribe::{apply, DEFAULT_MAX_DEPTH};
use annals::{Context, Scribe};

fn tags(pairs: &[(&str, &str)]) -> StrMap<String> {
    let mut map = StrMap::new();
    for (key, value) in pairs {
        map.insert(key.to_string(), value.to_string());
    }
    map
}

fn tagged_group(pairs: &[(&str, &str)], rules: &[&str]) -> Group {
    let mut group = Group::from_rules(rules).unwrap();
    for (key, value) in pairs {
        group.set_tag(key, value);
    }
    group
}

fn animals() -> Scribe {
    let mut scribe = Scribe::new();
    {
        let animal = scribe.cognate("animal");
        let big = animal.add_group().unwrap();
        big.set_tag("size", "big");
        big.add_rules(&["elephant", "whale"]).unwrap();
        let small = animal.add_group().unwrap();
        small.set_tag("size", "small");
        small.add_rules(&["mouse", "milk snake"]).unwrap();
    }
    {
        let expression = scribe.cognate("expression");
        let big = expression.add_group().unwrap();
        big.set_tag("size", "big");
        big.add_rule("BIG: wow! look at the size of that <animal>").unwrap();
        let small = expression.add_group().unwrap();
        small.set_tag("size", "small");
        small.add_rule("SMALL: oh look! a tiny <animal>!").unwrap();
    }
    scribe
}

#[test]
fn test_handle_token() {
    let scr = Scribe::default();
    let mut ctx = Context::default();
    let tok = Token::Expression(
        Command::Titlecase,
        Box::new(Token::Literal("the duke of york".to_owned())),
    );
    let res = scr.handle_token(&tok, &mut ctx);
    assert!(res.is_ok());
    assert_eq!(res.unwrap(), "The Duke of York".to_owned());
}

#[test]
fn commands_transform_text() {
    assert_eq!(apply(Command::Capitalize, "elephant"), "Elephant");
    assert_eq!(apply(Command::Capitalize, "\u{df}x"), "SSx");
    assert_eq!(apply(Command::Lowercase, "Big WHALE"), "big whale");
    assert_eq!(apply(Command::Titlecase, "the duke of york"), "The Duke of York");
    assert_eq!(apply(Command::IndefiniteArticle, "elephant"), "an elephant");
    assert_eq!(apply(Command::IndefiniteArticle, "Owl"), "an Owl");
    assert_eq!(apply(Command::IndefiniteArticle, "whale"), "a whale");
    assert_eq!(apply(Command::IndefiniteArticle, "\u{e9}lan"), "a \u{e9}lan");
}

#[test]
fn commands_leave_empty_text_empty() {
    for command in [
        Command::Capitalize,
        Command::Lowercase,
        Command::Titlecase,
        Command::IndefiniteArticle,
    ] {
        assert_eq!(apply(command, ""), "");
    }
}

#[test]
fn indefinite_article_follows_the_first_letter() {
    let scribe = Scribe::new();
    let mut vowel = Context::default();
    vowel.bind("elephant", "elephant");
    assert_eq!(scribe.expand_with("<(an elephant)>", vowel).unwrap(), "an elephant");
    let mut consonant = Context::default();
    consonant.bind("whale", "whale");
    assert_eq!(scribe.expand_with("<(an whale)>", consonant).unwrap(), "a whale");
}

#[test]
fn indefinite_article_of_a_cognate() {
    let mut scribe = Scribe::new();
    scribe.cognate("elephant").group_from_rules(&["elephant"]).unwrap();
    scribe.cognate("whale").group_from_rules(&["whale"]).unwrap();
    assert_eq!(scribe.expand("<(an elephant)>").unwrap(), "an elephant");
    assert_eq!(scribe.expand("<(an whale)>").unwrap(), "a whale");
    assert_eq!(scribe.expand("<(a (cap whale))>").unwrap(), "a Whale");
}

#[test]
fn unknown_cognate_is_reported() {
    let scribe = animals();
    match scribe.gen("does_not_exist") {
        Err(AnnalsError::UnknownCognate { name }) => assert_eq!(name, "does_not_exist"),
        other => panic!("unexpected: {:?}", other),
    }
    match scribe.expand("see <does_not_exist>") {
        Err(AnnalsError::UnknownCognate { name }) => assert_eq!(name, "does_not_exist"),
        other => panic!("unexpected: {:?}", other),
    }
}

#[test]
fn unbound_variable_is_reported() {
    let scribe = Scribe::new();
    match scribe.expand("<@never_bound>") {
        Err(AnnalsError::UnboundVariable { name }) => assert_eq!(name, "never_bound"),
        other => panic!("unexpected: {:?}", other),
    }
    match scribe.expand_with("<@never_bound>", Context::default()) {
        Err(AnnalsError::UnboundVariable { name }) => assert_eq!(name, "never_bound"),
        other => panic!("unexpected: {:?}", other),
    }
}

#[test]
fn bound_variable_is_read() {
    let scribe = Scribe::new();
    let mut context = Context::default();
    context.bind("speaker", "Bob");
    assert_eq!(scribe.expand_with("<@speaker>: hello", context).unwrap(), "Bob: hello");
}

#[test]
fn expand_reports_a_rule_that_does_not_parse() {
    let scribe = Scribe::new();
    match scribe.expand("<@some binding>") {
        Err(AnnalsError::InvalidRule { err, expr }) => {
            assert_eq!(err, ParseError::InvalidName(1, 14));
            assert_eq!(expr, "<@some binding>");
        }
        other => panic!("unexpected: {:?}", other),
    }
}

#[test]
fn empty_cognate_is_reported() {
    let mut scribe = Scribe::new();
    scribe.insert_cognate(Cognate::new("bare"));
    match scribe.gen("bare") {
        Err(AnnalsError::EmptyCognate { name }) => assert_eq!(name, "bare"),
        other => panic!("unexpected: {:?}", other),
    }
    scribe.cognate("hollow").add_group().unwrap();
    match scribe.gen("hollow") {
        Err(AnnalsError::EmptyCognate { name }) => assert_eq!(name, "hollow"),
        other => panic!("unexpected: {:?}", other),
    }
}

#[test]
fn no_suitable_group_is_reported_with_the_tags() {
    let scribe = animals();
    let context = Context::with_tags(tags(&[("size", "huge")]));
    match scribe.gen_with("animal", context) {
        Err(AnnalsError::NoSuitableGroups { name, tags }) => {
            assert_eq!(name, "animal");
            assert_eq!(tags.len(), 1);
            assert_eq!(tags.lookup("size"), Some("huge".to_string()));
        }
        other => panic!("unexpected: {:?}", other),
    }
}

#[test]
fn tags_filter_the_groups() {
    let scribe = animals();
    for _ in 0..1000 {
        let mut context = Context::with_tags(tags(&[("size", "big")]));
        let rule = scribe.select_rule("animal", &mut context).unwrap();
        assert!(rule.literal() == "elephant" || rule.literal() == "whale");
    }
    for _ in 0..1000 {
        let text = scribe.gen_with("animal", Context::with_tags(tags(&[("size", "small")]))).unwrap();
        assert!(text == "mouse" || text == "milk snake");
    }
}

#[test]
fn chosen_tags_hold_for_nested_choices() {
    let scribe = animals();
    for _ in 0..500 {
        let text = scribe.gen("expression").unwrap();
        if text.starts_with("BIG") {
            assert!(text.ends_with("elephant") || text.ends_with("whale"), "{}", text);
        } else {
            assert!(text.ends_with("mouse!") || text.ends_with("milk snake!"), "{}", text);
        }
    }
}

#[test]
fn selection_sets_the_tags_of_the_group() {
    let scribe = animals();
    let mut context = Context::with_tags(tags(&[("size", "small"), ("mood", "calm")]));
    scribe.select_rule("animal", &mut context).unwrap();
    assert_eq!(context.tags.lookup("size"), Some("small".to_string()));
    assert_eq!(context.tags.lookup("mood"), Some("calm".to_string()));

    let mut open = Context::default();
    let rule = scribe.select_rule("animal", &mut open).unwrap();
    let size = open.tags.lookup("size").unwrap();
    if rule.literal() == "elephant" || rule.literal() == "whale" {
        assert_eq!(size, "big");
    } else {
        assert_eq!(size, "small");
    }
}

#[test]
fn selection_weighs_groups_by_their_rules() {
    let mut scribe = Scribe::new();
    {
        let cognate = scribe.cognate("pick");
        cognate.group_from_rules(&["rare"]).unwrap();
        let many: Vec<String> = (0..99).map(|i| format!("common{}", i)).collect();
        let texts: Vec<&str> = many.iter().map(|s| s.as_str()).collect();
        cognate.group_from_rules(&texts).unwrap();
    }
    let trials = 20000;
    let mut rare = 0;
    for _ in 0..trials {
        if scribe.gen("pick").unwrap() == "rare" {
            rare += 1;
        }
    }
    assert!(rare > 100 && rare < 320, "rare was chosen {} times of {}", rare, trials);
}

#[test]
fn rules_are_read_in_group_order() {
    let first = tagged_group(&[("k", "a")], &["one"]);
    let second = tagged_group(&[("k", "b")], &[]);
    let third = tagged_group(&[("k", "c")], &["two", "three"]);
    let groups = vec![&first, &second, &third];

    let mut it = GroupListIter::new(groups.clone());
    assert_eq!(it.size(), 3);
    let mut seen = Vec::new();
    while let Some((rule, group)) = it.next() {
        seen.push((rule.literal().to_string(), group.tags.lookup("k").unwrap()));
    }
    assert_eq!(
        seen,
        vec![
            ("one".to_string(), "a".to_string()),
            ("two".to_string(), "c".to_string()),
            ("three".to_string(), "c".to_string()),
        ]
    );
    assert!(it.next().is_none());

    for (index, expected) in ["one", "two", "three"].iter().enumerate() {
        let mut it = GroupListIter::new(groups.clone());
        let (rule, _) = it.nth(index).unwrap();
        assert_eq!(rule.literal(), *expected);
    }
    let mut it = GroupListIter::new(groups.clone());
    assert!(it.nth(3).is_none());
    assert!(it.next().is_none());
    assert_eq!(GroupListIter::new(Vec::new()).size(), 0);
}

#[test]
fn pick_reads_the_rule_and_sets_its_tags() {
    let scribe = animals();
    let context = Context::with_tags(tags(&[("mood", "calm")]));
    let expected = [("elephant", "big"), ("whale", "big"), ("mouse", "small"), ("milk snake", "small")];
    for (index, (text, size)) in expected.iter().enumerate() {
        let mut choices = scribe.choices("animal", &context).unwrap();
        assert_eq!(choices.size(), 4);
        let mut working = context.clone();
        let rule = Scribe::pick(&mut choices, index, &mut working).unwrap();
        assert_eq!(rule.literal(), *text);
        assert_eq!(working.tags.lookup("size"), Some(size.to_string()));
        assert_eq!(working.tags.lookup("mood"), Some("calm".to_string()));
    }
    let mut choices = scribe.choices("animal", &context).unwrap();
    let mut working = context.clone();
    assert!(Scribe::pick(&mut choices, 4, &mut working).is_none());
    assert_eq!(working.tags.len(), 1);
}

#[test]
fn assignment_binds_only_while_it_is_evaluated() {
    let mut scribe = Scribe::new();
    scribe.cognate("leaf").group_from_rules(&["L"]).unwrap();
    let assign = Token::VariableAssignment("x".to_string(), "leaf".to_string());

    let mut context = Context::default();
    assert_eq!(scribe.handle_token(&assign, &mut context).unwrap(), "L");
    assert_eq!(context.get_binding("x"), None);

    let tokens = [assign, Token::Binding("x".to_string())];
    let mut context = Context::default();
    match scribe.expand_tokens(&tokens, &mut context, DEFAULT_MAX_DEPTH) {
        Err(AnnalsError::UnboundVariable { name }) => assert_eq!(name, "x"),
        other => panic!("unexpected: {:?}", other),
    }

    match scribe.expand("<$x:leaf><@x>") {
        Err(AnnalsError::InvalidRule { err, .. }) => assert_eq!(err, ParseError::InvalidName(1, 8)),
        other => panic!("unexpected: {:?}", other),
    }
}

#[test]
fn assignment_to_a_bound_name_gives_nothing() {
    let mut scribe = Scribe::new();
    scribe.cognate("leaf").group_from_rules(&["L"]).unwrap();
    let assign = Token::VariableAssignment("x".to_string(), "leaf".to_string());
    let mut context = Context::default();
    context.bind("x", "kept");
    assert_eq!(scribe.handle_token(&assign, &mut context).unwrap(), "");
    assert_eq!(context.get_binding("x"), Some("kept".to_string()));
}

#[test]
fn sticky_name_is_expanded_once_in_its_scope() {
    let mut scribe = Scribe::new();
    {
        let digit = scribe.cognate("digit");
        digit.group_from_rules(&["0", "1", "2", "3", "4", "5", "6", "7", "8", "9"]).unwrap();
    }
    scribe.cognate("pair").group_from_rules(&["<!digit><digit><digit><digit>"]).unwrap();
    scribe.cognate("two").group_from_rules(&["<pair>|<@digit>"]).unwrap();
    for _ in 0..200 {
        let text = scribe.gen("pair").unwrap();
        let chars: Vec<char> = text.chars().collect();
        assert_eq!(chars.len(), 4);
        assert!(chars.iter().all(|c| *c == chars[0]), "{}", text);
    }
    match scribe.gen("two") {
        Err(AnnalsError::UnboundVariable { name }) => assert_eq!(name, "digit"),
        other => panic!("the binding left its scope: {:?}", other),
    }
}

#[test]
fn ranges_draw_within_their_bounds() {
    let scribe = Scribe::new();
    assert_eq!(scribe.expand("<#5-6>").unwrap(), "5");
    assert_eq!(scribe.expand("<#0-1>").unwrap(), "0");
    for _ in 0..500 {
        let n: usize = scribe.expand("<#10-20>").unwrap().parse().unwrap();
        assert!(n >= 10 && n < 20);
    }
    match scribe.expand("<#7-3>") {
        Err(AnnalsError::EmptyRange { lower, upper }) => assert_eq!((lower, upper), (7, 3)),
        other => panic!("unexpected: {:?}", other),
    }
    match scribe.expand("<#4-4>") {
        Err(AnnalsError::EmptyRange { lower, upper }) => assert_eq!((lower, upper), (4, 4)),
        other => panic!("unexpected: {:?}", other),
    }
}

#[test]
fn endless_grammar_reaches_the_depth_limit() {
    let mut scribe = Scribe::new();
    scribe.cognate("loop").group_from_rules(&["again <loop>"]).unwrap();
    assert_eq!(scribe.max_depth(), DEFAULT_MAX_DEPTH);
    match scribe.gen("loop") {
        Err(AnnalsError::DepthExceeded { name }) => assert_eq!(name, "loop"),
        other => panic!("unexpected: {:?}", other),
    }
    scribe.cognate("leaf").group_from_rules(&["L"]).unwrap();
    scribe.cognate("mid").group_from_rules(&["<leaf>"]).unwrap();
    scribe.set_max_depth(0);
    assert!(matches!(scribe.gen("leaf"), Err(AnnalsError::DepthExceeded { .. })));
    scribe.set_max_depth(1);
    assert_eq!(scribe.gen("leaf").unwrap(), "L");
    assert!(matches!(scribe.gen("mid"), Err(AnnalsError::DepthExceeded { .. })));
    scribe.set_max_depth(2);
    assert_eq!(scribe.gen("mid").unwrap(), "L");
}

#[test]
fn scope_is_closed_after_an_error() {
    let mut scribe = Scribe::new();
    scribe.cognate("bad").group_from_rules(&["<!leaf><missing>"]).unwrap();
    scribe.cognate("leaf").group_from_rules(&["L"]).unwrap();
    let mut context = Context::default();
    let token = Token::NonTerminal("bad".to_string());
    assert!(matches!(
        scribe.handle_token(&token, &mut context),
        Err(AnnalsError::UnknownCognate { .. })
    ));
    assert_eq!(context.get_binding("leaf"), None);
}

#[test]
fn insert_replaces_a_cognate_of_the_same_name() {
    let mut scribe = Scribe::new();
    let mut first = Cognate::new("word");
    first.group_from_rules(&["old"]).unwrap();
    scribe.insert_cognate(first);
    let mut second = Cognate::new("word");
    second.group_from_rules(&["new"]).unwrap();
    scribe.insert_cognate(second);
    scribe.insert_cognate(Cognate::new("other"));
    assert_eq!(scribe.gen("word").unwrap(), "new");
    let names: Vec<&str> = scribe.iter().map(|c| c.name()).collect();
    assert_eq!(names, vec!["word", "other"]);
    assert!(scribe.get("word").is_some());
    assert!(scribe.get("absent").is_none());
}

#[test]
fn literal_rule_generates_itself() {
    let scribe = Scribe::new();
    assert_eq!(scribe.expand("just \\<text\\>").unwrap(), "just <text>");
}

#[test]
fn ranges_draw_every_number_of_a_small_range() {
    let scribe = Scribe::new();
    let mut seen = [false, false];
    for _ in 0..400 {
        let n: usize = scribe.expand("<#0-2>").unwrap().parse().unwrap();
        seen[n] = true;
    }
    assert!(seen[0] && seen[1]);
}

#[test]
fn every_rule_of_a_cognate_can_be_chosen() {
    let mut scribe = Scribe::new();
    scribe.cognate("word").group_from_rules(&["a", "b"]).unwrap();
    scribe.cognate("word").group_from_rules(&["c"]).unwrap();
    let mut seen = std::collections::HashSet::new();
    for _ in 0..600 {
        seen.insert(scribe.gen("word").unwrap());
    }
    assert_eq!(seen.len(), 3);
}
