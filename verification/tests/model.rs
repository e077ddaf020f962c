use annals::cognate::Cognate;
use annals::dict::StrMap;
use annals::error::{AnnalsError, ParseError};
use annals::group::Group;
use annals::Context;

fn map_of(pairs: &[(&str, &str)]) -> StrMap<String> {
    let mut map = StrMap::new();
    for (key, value) in pairs {
        map.insert(key.to_string(), value.to_string());
    }
    map
}

fn group_with(pairs: &[(&str, &str)]) -> Group {
    let mut group = Group::new();
    for (key, value) in pairs {
        group.set_tag(key, value);
    }
    group
}

#[test]
fn map_inserts_replaces_and_removes() {
    let mut map: StrMap<String> = StrMap::new();
    assert!(map.is_empty());
    assert_eq!(map.len(), 0);
    map.insert("a".to_string(), "1".to_string());
    map.insert("b".to_string(), "2".to_string());
    map.insert("a".to_string(), "3".to_string());
    assert_eq!(map.len(), 2);
    assert!(!map.is_empty());
    assert_eq!(map.get("a"), Some(&"3".to_string()));
    assert_eq!(map.lookup("b"), Some("2".to_string()));
    assert_eq!(map.get("c"), None);
    assert!(map.contains_key("a"));
    assert!(!map.contains_key("c"));
    assert_eq!(map.key_at(0), "a");
    assert_eq!(map.value_at(0), "3");
    assert_eq!(map.key_at(1), "b");
    assert_eq!(map.values(), &["3".to_string(), "2".to_string()][..]);

    *map.get_mut("b").unwrap() = "4".to_string();
    assert_eq!(map.lookup("b"), Some("4".to_string()));
    assert!(map.get_mut("zz").is_none());

    assert_eq!(map.remove("a"), Some("3".to_string()));
    assert_eq!(map.remove("a"), None);
    assert_eq!(map.len(), 1);
    assert_eq!(map.key_at(0), "b");
}

#[test]
fn map_absorbs_another() {
    let mut left = map_of(&[("a", "1"), ("b", "2")]);
    let right = map_of(&[("c", "5"), ("a", "9")]);
    left.absorb(&right);
    assert_eq!(left.len(), 3);
    assert_eq!(left.lookup("a"), Some("9".to_string()));
    assert_eq!(left.lookup("b"), Some("2".to_string()));
    assert_eq!(left.lookup("c"), Some("5".to_string()));
    assert_eq!(left.key_at(0), "a");
    assert_eq!(left.key_at(1), "b");
    assert_eq!(left.key_at(2), "c");
    assert_eq!(right.len(), 2);
}

#[test]
fn map_agreement_looks_at_shared_keys_only() {
    let both = map_of(&[("size", "big"), ("mood", "calm")]);
    assert!(both.agrees_with(&map_of(&[("size", "big")])));
    assert!(both.agrees_with(&map_of(&[("colour", "red")])));
    assert!(both.agrees_with(&map_of(&[])));
    assert!(map_of(&[]).agrees_with(&both));
    assert!(!both.agrees_with(&map_of(&[("size", "small")])));
    assert!(!both.agrees_with(&map_of(&[("mood", "wild"), ("size", "big")])));
}

#[test]
fn map_is_described_in_key_order() {
    assert_eq!(map_of(&[]).describe(), "{}");
    assert_eq!(map_of(&[("size", "big")]).describe(), "{\"size\": \"big\"}");
    assert_eq!(
        map_of(&[("size", "big"), ("mood", "calm")]).describe(),
        "{\"size\": \"big\", \"mood\": \"calm\"}"
    );
    let copy = map_of(&[("b", "1"), ("a", "2")]).clone();
    assert_eq!(copy.describe(), "{\"b\": \"1\", \"a\": \"2\"}");
}

#[test]
fn context_accepts_groups_by_shared_tags() {
    let context = Context::with_tags(map_of(&[("size", "big")]));
    assert!(context.has_tags());
    let big = group_with(&[("size", "big")]);
    let small = group_with(&[("size", "small")]);
    let other = group_with(&[("mood", "calm")]);
    let bare = Group::new();
    for group in [&big, &other, &bare] {
        assert!(context.accept(group));
        assert!(context.accept_strict(group));
    }
    assert!(!context.accept(&small));
    assert!(!context.accept_strict(&small));

    let empty = Context::default();
    assert!(!empty.has_tags());
    for group in [&big, &small, &other, &bare] {
        assert!(empty.accept(group));
        assert!(empty.accept_strict(group));
    }
}

#[test]
fn context_sets_and_merges_tags() {
    let mut context = Context::new(map_of(&[("size", "big")]), map_of(&[("who", "Bob")]));
    context.set("mood", "calm");
    context.set("size", "huge");
    assert_eq!(context.tags().lookup("size"), Some("huge".to_string()));
    context.merge_from_group(&group_with(&[("size", "small"), ("age", "old")]));
    assert_eq!(context.tags.lookup("size"), Some("small".to_string()));
    assert_eq!(context.tags.lookup("mood"), Some("calm".to_string()));
    assert_eq!(context.tags.lookup("age"), Some("old".to_string()));
    assert_eq!(context.get_binding("who"), Some("Bob".to_string()));
}

#[test]
fn context_scopes_unwind_their_bindings() {
    let mut context = Context::with_bindings(map_of(&[("outer", "o")]));
    context.bind("free", "f");
    context.descend();
    context.bind("a", "1");
    context.bind("a", "2");
    context.descend();
    context.bind("b", "3");
    context.bind("outer", "shadow");
    assert_eq!(context.get_binding("a"), Some("2".to_string()));
    assert_eq!(context.get_binding("outer"), Some("shadow".to_string()));
    context.ascend();
    assert_eq!(context.get_binding("b"), None);
    assert_eq!(context.get_binding("outer"), None);
    assert_eq!(context.get_binding("a"), Some("2".to_string()));
    context.ascend();
    assert_eq!(context.get_binding("a"), None);
    assert_eq!(context.get_binding("free"), Some("f".to_string()));
    context.ascend();
    assert_eq!(context.get_binding("free"), Some("f".to_string()));
    context.unbind("free");
    assert_eq!(context.get_binding("free"), None);
    context.unbind("free");
}

#[test]
fn group_is_built_whole_or_not_at_all() {
    let group = Group::from_rules(&["<A>", "A <B>"]).unwrap();
    assert_eq!(group.len(), 2);
    assert!(!group.is_empty());
    assert!(group.tags.is_empty());
    assert_eq!(group.rules[1].literal(), "A <B>");
    assert!(Group::from_rules(&[]).unwrap().is_empty());
    assert!(Group::default().is_empty());

    match Group::from_rules(&["fine", "<>", "<,>"]) {
        Err(AnnalsError::InvalidRule { err, expr }) => {
            assert_eq!(err, ParseError::ZeroLengthSubst(1, 2));
            assert_eq!(expr, "<>");
        }
        other => panic!("unexpected: {:?}", other),
    }
}

#[test]
fn group_keeps_its_rules_when_an_addition_fails() {
    let mut group = Group::new();
    group.add_rule("<A>").unwrap();
    assert!(group.add_rule("<<").is_err());
    assert_eq!(group.len(), 1);
    match group.add_rules(&["x", "<@>", "y"]) {
        Err(AnnalsError::InvalidRule { err, expr }) => {
            assert_eq!(err, ParseError::InvalidName(1, 2));
            assert_eq!(expr, "<@>");
        }
        other => panic!("unexpected: {:?}", other),
    }
    assert_eq!(group.len(), 1);
    group.add_rules(&["x", "y"]).unwrap();
    assert_eq!(group.len(), 3);
    assert_eq!(group.rules[2].literal(), "y");
    group.set_tag("k", "v");
    group.set_tag("k", "w");
    assert_eq!(group.tags.lookup("k"), Some("w".to_string()));
}

#[test]
fn cognate_counts_groups_and_rules() {
    let mut cog = Cognate::new("root");
    assert_eq!(cog.name(), "root");
    assert_eq!(cog.name, "root");
    assert_eq!(cog.len(), 0);
    assert_eq!(cog.rules_count(), 0);
    assert!(cog.is_empty());

    cog.group_from_rules(&["<A>", "A <B>"]).unwrap();
    assert_eq!(cog.len(), 1);
    assert_eq!(cog.rules_count(), 2);
    assert!(!cog.is_empty());

    {
        let grp = cog.add_group().unwrap();
        grp.add_rule("<A>").unwrap();
        grp.add_rule("A <B>").unwrap();
        grp.add_rule("C").unwrap();
    }
    assert_eq!(cog.len(), 2);
    assert_eq!(cog.rules_count(), 5);
    assert_eq!(cog.iter_groups().map(|g| g.len()).collect::<Vec<_>>(), vec![2, 3]);
    assert_eq!(cog.groups()[1].rules[2].literal(), "C");

    assert!(cog.group_from_rules(&["ok", "<"]).is_err());
    assert_eq!(cog.len(), 2);
}
