use annals::error::{format_invalid_rule, AnnalsError, ParseError};
use annals::dict::StrMap;
use annals::text::{
    chars_of, count_char, decimal_string, find_char, is_space, parse_number, string_of, trimmed,
};

fn chars(s: &str) -> Vec<char> {
    s.chars().collect()
}

#[test]
fn strings_and_characters_convert_both_ways() {
    assert_eq!(chars_of("h\u{e9}llo"), vec!['h', '\u{e9}', 'l', 'l', 'o']);
    assert_eq!(chars_of(""), Vec::<char>::new());
    assert_eq!(string_of(&['a', '\u{1F600}', 'b']), "a\u{1F600}b");
    assert_eq!(string_of(&[]), "");
}

#[test]
fn white_space_is_what_the_standard_library_says() {
    for code in 0..0x11_0000u32 {
        if let Some(c) = char::from_u32(code) {
            assert_eq!(is_space(c), c.is_whitespace(), "U+{:04X}", code);
        }
    }
}

#[test]
fn trimming_removes_both_ends() {
    for text in ["", " ", "a", "  a b  ", "\t\nx\u{3000}", "a ", " a", "\u{a0}\u{2003}"] {
        let all = chars(text);
        assert_eq!(string_of(trimmed(&all)), text.trim(), "{:?}", text);
    }
}

#[test]
fn characters_are_found_and_counted() {
    let text = chars("a-b-c");
    assert_eq!(find_char(&text, '-'), Some(1));
    assert_eq!(find_char(&text, 'a'), Some(0));
    assert_eq!(find_char(&text, 'z'), None);
    assert_eq!(find_char(&[], 'z'), None);
    assert_eq!(count_char(&text, '-'), 2);
    assert_eq!(count_char(&text, 'z'), 0);
}

#[test]
fn numbers_are_written_in_decimal() {
    assert_eq!(decimal_string(0), "0");
    assert_eq!(decimal_string(7), "7");
    assert_eq!(decimal_string(10), "10");
    assert_eq!(decimal_string(120), "120");
    assert_eq!(decimal_string(usize::MAX), usize::MAX.to_string());
}

#[test]
fn numbers_are_read_as_the_standard_library_reads_them() {
    let max = usize::MAX.to_string();
    let over = format!("{}0", max);
    let cases = [
        "0", "7", "007", "39", "100", "+5", "+", "", "-1", "1 ", " 1", "1_0", "12a", "\u{663}",
        max.as_str(),
        over.as_str(),
        "18446744073709551616",
        "99999999999999999999999999",
    ];
    for text in cases {
        assert_eq!(parse_number(&chars(text)), text.parse::<usize>().ok(), "{:?}", text);
    }
    assert_eq!(parse_number(&chars("39")), Some(39));
}

#[test]
fn parse_errors_have_messages() {
    assert_eq!(ParseError::EmptyRule.message(), "Cannot create rule from empty string!");
    assert_eq!(ParseError::InternalError.message(), "Unknown error!");
    assert_eq!(ParseError::InvalidExpression(1, 6).message(), "Invalid expression (1, 6)");
    assert_eq!(ParseError::InvalidName(1, 14).message(), "Invalid name (1, 14)");
    assert_eq!(ParseError::InvalidRange(0, 10).message(), "Invalid range specification (0, 10)");
    assert_eq!(ParseError::UnbalancedBrackets.message(), "Unbalanced brackets in expr");
    assert_eq!(ParseError::UnknownCommand(2, 5).message(), "Unknown command (2, 5)");
    assert_eq!(
        ParseError::ZeroLengthSubst(13, 14).message(),
        "Zero-length substitution expression (13, 14)"
    );
}

#[test]
fn invalid_rules_are_shown_with_a_caret() {
    assert_eq!(
        format_invalid_rule(&ParseError::InvalidName(6, 8), "Hello <,>"),
        "\nHello <,>\n      ^-- Invalid name (6, 8)"
    );
    assert_eq!(
        format_invalid_rule(&ParseError::ZeroLengthSubst(0, 1), ">"),
        "\n>\n^-- Zero-length substitution expression (0, 1)"
    );
    assert_eq!(
        format_invalid_rule(&ParseError::UnknownCommand(1, 4), "<(foo x)>"),
        "\n<(foo x)>\n ^-- Unknown command (1, 4)"
    );
    assert_eq!(
        format_invalid_rule(&ParseError::InvalidRange(1, 3), "<#1>"),
        "\n<#1>\n ^-- Invalid range specification (1, 3)"
    );
    assert_eq!(
        format_invalid_rule(&ParseError::InvalidExpression(1, 5), "<(ab)>"),
        "\n<(ab)>\n ^-- Invalid expression (1, 5)"
    );
    assert_eq!(
        format_invalid_rule(&ParseError::EmptyRule, ""),
        "\nCannot create rule from empty string!"
    );
    assert_eq!(
        format_invalid_rule(&ParseError::UnbalancedBrackets, "<<"),
        "\nUnbalanced brackets in rule:\n    <<"
    );
    assert_eq!(
        format_invalid_rule(&ParseError::InternalError, "<$x>"),
        "\nUnknown internal error while parsing:\n    <$x>"
    );
}

#[test]
fn errors_have_messages() {
    let name = || "root".to_string();
    assert_eq!(AnnalsError::UnknownCognate { name: name() }.message(), "Unknown cognate: root");
    assert_eq!(AnnalsError::EmptyCognate { name: name() }.message(), "No groups in cognate: root");
    let mut tags = StrMap::new();
    tags.insert("size".to_string(), "big".to_string());
    assert_eq!(
        AnnalsError::NoSuitableGroups { name: name(), tags }.message(),
        "No suitable groups for root in context: {\"size\": \"big\"}"
    );
    assert_eq!(
        AnnalsError::UnknownToken { content: "?".to_string() }.message(),
        "Unknown token: ?"
    );
    assert_eq!(AnnalsError::UnboundVariable { name: name() }.message(), "Unbound variable: root");
    assert_eq!(AnnalsError::SerdeError { msg: "bad".to_string() }.message(), "bad");
    assert_eq!(
        AnnalsError::from_invalid_rule("<,>".to_string(), ParseError::InvalidName(1, 2)).message(),
        "\n<,>\n ^-- Invalid name (1, 2)"
    );
    assert_eq!(
        AnnalsError::DepthExceeded { name: name() }.message(),
        "Recursion limit reached in cognate: root"
    );
    assert_eq!(AnnalsError::EmptyRange { lower: 7, upper: 3 }.message(), "Empty range (7, 3)");
    assert_eq!(AnnalsError::UnknownError.message(), "Unknown error");
}
