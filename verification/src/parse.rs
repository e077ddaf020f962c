//! The parser: from the text of a rule to its tokens.
//!
//! A rule is literal text with substitutions between `<` and `>`. A bracket
//! that follows a backslash is literal text. Positions count characters.

use vstd::prelude::*;
use vstd::string::*;
use crate::error::{AnnalsError, ErrorView, ParseError};
use crate::outside::{push_char, regex_is_match, regex_verdict};
use crate::text::{
    chars_of, count_char, find_char, lemma_position, lemma_trim_len, number, occurrences,
    parse_number, position, string_of, trim, trimmed,
};

verus! {

/// A text transform that an expression applies to what its inner token gives.
#[derive(Debug, Clone, Copy, PartialEq, Eq)]
pub enum Command {
    Capitalize,
    Lowercase,
    Titlecase,
    IndefiniteArticle,
}

/// One parsed unit of a rule.
#[derive(Debug, PartialEq)]
pub enum Token {
    /// Text that is written as it stands.
    Literal(String),
    /// The name of a cognate to expand.
    NonTerminal(String),
    /// The name of a cognate to expand once and to bind under its own name.
    StickyNonTerminal(String),
    /// The name of a binding to read.
    Binding(String),
    /// A transform of what the inner token gives.
    Expression(Command, Box<Token>),
    /// A number to draw from the lower bound up to, not including, the upper.
    Range(usize, usize),
    /// The name of a binding, and the name of the cognate that gives its
    /// value.
    VariableAssignment(String, String),
}

/// A [`Token`] with its strings as sequences of characters.
pub enum TokenView {
    Literal(Seq<char>),
    NonTerminal(Seq<char>),
    StickyNonTerminal(Seq<char>),
    Binding(Seq<char>),
    Expression(Command, Box<TokenView>),
    Range(usize, usize),
    VariableAssignment(Seq<char>, Seq<char>),
}

/// The view of a token.
pub open spec fn token_view(token: Token) -> TokenView
    decreases token,
{
    match token {
        Token::Literal(text) => TokenView::Literal(text@),
        Token::NonTerminal(name) => TokenView::NonTerminal(name@),
        Token::StickyNonTerminal(name) => TokenView::StickyNonTerminal(name@),
        Token::Binding(name) => TokenView::Binding(name@),
        Token::Expression(command, inner) => TokenView::Expression(
            command,
            Box::new(token_view(*inner)),
        ),
        Token::Range(lower, upper) => TokenView::Range(lower, upper),
        Token::VariableAssignment(name, rule) => TokenView::VariableAssignment(name@, rule@),
    }
}

impl View for Token {
    type V = TokenView;

    open spec fn view(&self) -> TokenView {
        token_view(*self)
    }
}

/// The views of a list of tokens.
pub open spec fn token_views(tokens: Seq<Token>) -> Seq<TokenView> {
    Seq::new(tokens.len(), |i: int| tokens[i]@)
}

/// The views of the outcome of parsing.
pub open spec fn parsed_view(r: Result<Vec<Token>, ParseError>) -> Result<
    Seq<TokenView>,
    ParseError,
> {
    match r {
        Ok(tokens) => Ok(token_views(tokens@)),
        Err(e) => Err(e),
    }
}

/// The view of one parsed token, or the error.
pub open spec fn token_result_view(r: Result<Token, ParseError>) -> Result<TokenView, ParseError> {
    match r {
        Ok(token) => Ok(token@),
        Err(e) => Err(e),
    }
}

/// Whether the character at `i` follows a backslash.
pub open spec fn is_escaped(s: Seq<char>, i: int) -> bool {
    i > 0 && s[i - 1] == '\\'
}

/// Whether an opening bracket that is not escaped stands at `i`.
pub open spec fn opens_at(s: Seq<char>, i: int) -> bool {
    s[i] == '<' && !is_escaped(s, i)
}

/// Whether a closing bracket that is not escaped stands at `i`.
pub open spec fn closes_at(s: Seq<char>, i: int) -> bool {
    s[i] == '>' && !is_escaped(s, i)
}

/// How many opening brackets that are not escaped stand before `n`.
pub open spec fn open_count(s: Seq<char>, n: int) -> nat
    decreases n,
{
    if n <= 0 {
        0
    } else {
        open_count(s, n - 1) + if opens_at(s, n - 1) {
            1nat
        } else {
            0nat
        }
    }
}

/// How many closing brackets that are not escaped stand before `n`.
pub open spec fn close_count(s: Seq<char>, n: int) -> nat
    decreases n,
{
    if n <= 0 {
        0
    } else {
        close_count(s, n - 1) + if closes_at(s, n - 1) {
            1nat
        } else {
            0nat
        }
    }
}

/// Whether `s` has as many opening as closing brackets that are not escaped.
pub open spec fn balanced(s: Seq<char>) -> bool {
    open_count(s, s.len() as int) == close_count(s, s.len() as int)
}

/// `s` with every backslash dropped that stands before a bracket.
pub open spec fn unescape(s: Seq<char>) -> Seq<char>
    decreases s.len(),
{
    if s.len() == 0 {
        s
    } else if s.len() >= 2 && s[0] == '\\' && (s[1] == '<' || s[1] == '>') {
        seq![s[1]] + unescape(s.skip(2))
    } else {
        seq![s[0]] + unescape(s.skip(1))
    }
}

/// The pattern that a name has to match: an optional sigil, then one or more
/// word characters, digits, underscores or hyphens.
pub open spec fn name_pattern() -> Seq<char> {
    "^[@!$#]?[\\w0-9_-]+$"@
}

/// The command that a keyword stands for.
pub open spec fn command_of(word: Seq<char>) -> Option<Command> {
    if word == "cap"@ || word == "capitalize"@ {
        Some(Command::Capitalize)
    } else if word == "low"@ || word == "lowercase"@ {
        Some(Command::Lowercase)
    } else if word == "title"@ || word == "titlecase"@ {
        Some(Command::Titlecase)
    } else if word == "a"@ || word == "an"@ {
        Some(Command::IndefiniteArticle)
    } else {
        None
    }
}

/// The token for what follows `#`: two numbers with a hyphen between them.
pub open spec fn range_token(text: Seq<char>, beg: usize, end: usize) -> Result<
    TokenView,
    ParseError,
> {
    let dash = position(text, '-');
    if dash >= text.len() {
        Err(ParseError::InvalidRange(beg, end))
    } else {
        match (number(text.take(dash)), number(text.skip(dash + 1))) {
            (Some(lower), Some(upper)) => Ok(TokenView::Range(lower, upper)),
            _ => Err(ParseError::InvalidRange(beg, end)),
        }
    }
}

/// The token for what follows `$`: the name of a binding, a colon, and the
/// name of a cognate.
pub open spec fn variable_token(text: Seq<char>) -> Result<TokenView, ParseError> {
    let colon = position(text, ':');
    if colon >= text.len() {
        Err(ParseError::InternalError)
    } else {
        Ok(TokenView::VariableAssignment(text.take(colon), text.skip(colon + 1)))
    }
}

/// The token for a body that is no command expression, given what the name
/// pattern says of it.
pub open spec fn name_token(body: Seq<char>, beg: usize, end: usize, verdict: Option<bool>) -> Result<
    TokenView,
    ParseError,
> {
    if body.len() == 0 {
        Err(ParseError::ZeroLengthSubst(beg, end))
    } else {
        match verdict {
            None => Err(ParseError::InternalError),
            Some(false) => Err(ParseError::InvalidName(beg, end)),
            Some(true) => if body[0] == '@' {
                Ok(TokenView::Binding(body.skip(1)))
            } else if body[0] == '!' {
                Ok(TokenView::StickyNonTerminal(body.skip(1)))
            } else if body[0] == '#' {
                range_token(body.skip(1), beg, end)
            } else if body[0] == '$' {
                variable_token(body.skip(1))
            } else {
                Ok(TokenView::NonTerminal(body))
            },
        }
    }
}

/// The token for the body of a substitution: the text between the brackets,
/// or what is left of it inside a command expression. `beg` and `end` are
/// the span that an error reports.
pub open spec fn body_token(body: Seq<char>, beg: usize, end: usize) -> Result<TokenView, ParseError>
    recommends
        beg + body.len() <= end,
    decreases body.len(),
{
    if body.len() == 0 {
        Err(ParseError::ZeroLengthSubst(beg, end))
    } else if body[0] == '(' {
        if occurrences(body, '(') != occurrences(body, ')') {
            Err(ParseError::InvalidExpression(beg, end))
        } else if body.len() <= 2 {
            Err(ParseError::ZeroLengthSubst((beg + 1) as usize, end))
        } else {
            let inner = body.subrange(1, body.len() - 1);
            let space = position(inner, ' ');
            if space >= inner.len() {
                Err(ParseError::InvalidExpression(beg, end))
            } else {
                match command_of(inner.take(space)) {
                    None => Err(ParseError::UnknownCommand(beg, (beg + space) as usize)),
                    Some(command) => {
                        let rest = trim(inner.skip(space));
                        proof {
                            lemma_position(inner, ' ');
                            lemma_trim_len(inner.skip(space));
                        }
                        match body_token(rest, (beg + space) as usize, end) {
                            Ok(token) => Ok(TokenView::Expression(command, Box::new(token))),
                            Err(e) => Err(e),
                        }
                    },
                }
            }
        }
    } else {
        name_token(body, beg, end, regex_verdict(name_pattern(), body))
    }
}

/// The token for the substitution whose body is `s` from `beg` to `end`. An
/// empty body is reported with the span of the closing bracket.
pub open spec fn subst_token(s: Seq<char>, beg: usize, end: usize) -> Result<TokenView, ParseError>
    recommends
        beg <= end < s.len(),
{
    if beg == end {
        Err(ParseError::ZeroLengthSubst(beg, (end + 1) as usize))
    } else {
        body_token(s.subrange(beg as int, end as int), beg, end)
    }
}

/// The literal token for `s` from `beg` to `end`.
pub open spec fn literal_token(s: Seq<char>, beg: int, end: int) -> TokenView {
    TokenView::Literal(unescape(s.subrange(beg, end)))
}

/// `front` followed by the tokens of `rest`, or the error of `rest`.
pub open spec fn prepend(front: Seq<TokenView>, rest: Result<Seq<TokenView>, ParseError>) -> Result<
    Seq<TokenView>,
    ParseError,
> {
    match rest {
        Ok(tokens) => Ok(front + tokens),
        Err(e) => Err(e),
    }
}

/// The tokens of `s` from position `i` on, where the text not yet made into
/// a token starts at `start` and `inside` says whether an opening bracket is
/// waiting for its closing bracket.
pub open spec fn scan(s: Seq<char>, i: int, start: int, inside: bool) -> Result<
    Seq<TokenView>,
    ParseError,
>
    decreases s.len() - i,
{
    if i >= s.len() {
        if start < s.len() {
            Ok(seq![literal_token(s, start, s.len() as int)])
        } else {
            Ok(Seq::<TokenView>::empty())
        }
    } else if opens_at(s, i) && !inside {
        let front = if start != i {
            seq![literal_token(s, start, i)]
        } else {
            Seq::<TokenView>::empty()
        };
        prepend(front, scan(s, i + 1, i + 1, true))
    } else if closes_at(s, i) {
        match subst_token(s, start as usize, i as usize) {
            Ok(token) => prepend(seq![token], scan(s, i + 1, i + 1, false)),
            Err(e) => Err(e),
        }
    } else {
        scan(s, i + 1, start, inside)
    }
}

/// The tokens of the rule `s`, or why it is no rule.
pub open spec fn parse_rule(s: Seq<char>) -> Result<Seq<TokenView>, ParseError> {
    if s.len() == 0 {
        Err(ParseError::EmptyRule)
    } else if !balanced(s) {
        Err(ParseError::UnbalancedBrackets)
    } else {
        scan(s, 0, 0, false)
    }
}

/// Makes the literal token for `expr` from `beg` to `end`.
fn make_literal(expr: &[char], beg: usize, end: usize) -> (token: Token)
    requires
        beg <= end <= expr@.len(),
    ensures
        token@ == literal_token(expr@, beg as int, end as int),
{
    let ghost text = expr@.subrange(beg as int, end as int);
    let mut out = String::new();
    let mut i: usize = beg;
    assert(text.skip(0) == text);
    while i < end
        invariant
            beg <= i <= end <= expr@.len(),
            text == expr@.subrange(beg as int, end as int),
            unescape(text) == out@ + unescape(text.skip(i - beg)),
        decreases end - i,
    {
        let ghost rest = text.skip(i - beg);
        let ghost before = out@;
        assert(rest.len() == end - i);
        assert(rest[0] == expr@[i as int]);
        if expr[i] == '\\' && i + 1 < end && (expr[i + 1] == '<' || expr[i + 1] == '>') {
            assert(rest[1] == expr@[i + 1]);
            push_char(&mut out, expr[i + 1]);
            assert(rest.skip(2) == text.skip(i + 2 - beg));
            assert(out@ + unescape(rest.skip(2)) == before + (seq![rest[1]] + unescape(rest.skip(2))));
            i += 2;
        } else {
            proof {
                if rest.len() >= 2 {
                    assert(rest[1] == expr@[i + 1]);
                }
            }
            push_char(&mut out, expr[i]);
            assert(rest.skip(1) == text.skip(i + 1 - beg));
            assert(out@ + unescape(rest.skip(1)) == before + (seq![rest[0]] + unescape(rest.skip(1))));
            i += 1;
        }
    }
    assert(text.skip(end - beg).len() == 0);
    assert(out@ + Seq::<char>::empty() == out@);
    Token::Literal(out)
}

/// Reads a command keyword.
pub fn command_for(word: &[char]) -> (r: Option<Command>)
    ensures
        r == command_of(word@),
{
    let w = string_of(word);
    if w == String::from_str("cap") || w == String::from_str("capitalize") {
        Some(Command::Capitalize)
    } else if w == String::from_str("low") || w == String::from_str("lowercase") {
        Some(Command::Lowercase)
    } else if w == String::from_str("title") || w == String::from_str("titlecase") {
        Some(Command::Titlecase)
    } else if w == String::from_str("a") || w == String::from_str("an") {
        Some(Command::IndefiniteArticle)
    } else {
        None
    }
}

/// Parses what follows `#`: a range.
pub fn parse_range(text: &[char], beg: usize, end: usize) -> (r: Result<Token, ParseError>)
    ensures
        token_result_view(r) == range_token(text@, beg, end),
{
    match find_char(text, '-') {
        Some(dash) => {
            let n = text.len();
            let lower = parse_number(vstd::slice::slice_subrange(text, 0, dash));
            let upper = parse_number(vstd::slice::slice_subrange(text, dash + 1, n));
            assert(text@.subrange(0, dash as int) == text@.take(dash as int));
            assert(text@.subrange(dash + 1, text@.len() as int) == text@.skip(dash + 1));
            match (lower, upper) {
                (Some(lower), Some(upper)) => Ok(Token::Range(lower, upper)),
                _ => Err(ParseError::InvalidRange(beg, end)),
            }
        },
        None => Err(ParseError::InvalidRange(beg, end)),
    }
}

/// Parses what follows `$`: a variable assignment.
pub fn parse_variable(text: &[char], _beg: usize, _end: usize) -> (r: Result<Token, ParseError>)
    ensures
        token_result_view(r) == variable_token(text@),
{
    match find_char(text, ':') {
        Some(colon) => {
            let n = text.len();
            let name = string_of(vstd::slice::slice_subrange(text, 0, colon));
            let rule = string_of(vstd::slice::slice_subrange(text, colon + 1, n));
            assert(text@.subrange(0, colon as int) == text@.take(colon as int));
            assert(text@.subrange(colon + 1, text@.len() as int) == text@.skip(colon + 1));
            Ok(Token::VariableAssignment(name, rule))
        },
        None => Err(ParseError::InternalError),
    }
}

/// Makes the token for a body that is no command expression. `verdict` is
/// what the name pattern says of the body: `None` where the pattern could not
/// be used, otherwise whether the body matches.
pub fn token_for_name(body: &[char], beg: usize, end: usize, verdict: Option<bool>) -> (r: Result<
    Token,
    ParseError,
>)
    ensures
        token_result_view(r) == name_token(body@, beg, end, verdict),
{
    if body.len() == 0 {
        return Err(ParseError::ZeroLengthSubst(beg, end));
    }
    match verdict {
        None => Err(ParseError::InternalError),
        Some(false) => Err(ParseError::InvalidName(beg, end)),
        Some(true) => {
            let rest = vstd::slice::slice_subrange(body, 1, body.len());
            assert(rest@ == body@.skip(1));
            let sigil = body[0];
            if sigil == '@' {
                Ok(Token::Binding(string_of(rest)))
            } else if sigil == '!' {
                Ok(Token::StickyNonTerminal(string_of(rest)))
            } else if sigil == '#' {
                parse_range(rest, beg, end)
            } else if sigil == '$' {
                parse_variable(rest, beg, end)
            } else {
                Ok(Token::NonTerminal(string_of(body)))
            }
        },
    }
}

/// Parses a command expression: a keyword and a body between parentheses.
fn parse_cmd_expr(body: &[char], beg: usize, end: usize) -> (r: Result<Token, ParseError>)
    requires
        beg + body@.len() <= end,
        body@.len() > 0,
        body@[0] == '(',
        occurrences(body@, '(') == occurrences(body@, ')'),
    ensures
        token_result_view(r) == body_token(body@, beg, end),
    decreases body@.len(), 0nat,
{
    let n = body.len();
    if n <= 2 {
        return Err(ParseError::ZeroLengthSubst(beg + 1, end));
    }
    let inner = vstd::slice::slice_subrange(body, 1, n - 1);
    match find_char(inner, ' ') {
        None => Err(ParseError::InvalidExpression(beg, end)),
        Some(space) => {
            let m = inner.len();
            let word = vstd::slice::slice_subrange(inner, 0, space);
            assert(word@ == inner@.take(space as int));
            match command_for(word) {
                None => Err(ParseError::UnknownCommand(beg, beg + space)),
                Some(command) => {
                    let tail = vstd::slice::slice_subrange(inner, space, m);
                    assert(tail@ == inner@.skip(space as int));
                    let rest = trimmed(tail);
                    proof {
                        lemma_trim_len(tail@);
                    }
                    match validate_substitution_expr(rest, beg + space, end) {
                        Ok(token) => Ok(Token::Expression(command, Box::new(token))),
                        Err(e) => Err(e),
                    }
                },
            }
        },
    }
}

/// Makes the token for the body of a substitution.
fn validate_substitution_expr(body: &[char], beg: usize, end: usize) -> (r: Result<
    Token,
    ParseError,
>)
    requires
        beg + body@.len() <= end,
    ensures
        token_result_view(r) == body_token(body@, beg, end),
    decreases body@.len(), 1nat,
{
    if body.len() == 0 {
        return Err(ParseError::ZeroLengthSubst(beg, end));
    }
    if body[0] == '(' {
        if count_char(body, '(') != count_char(body, ')') {
            return Err(ParseError::InvalidExpression(beg, end));
        }
        parse_cmd_expr(body, beg, end)
    } else {
        let text = string_of(body);
        let verdict = regex_is_match("^[@!$#]?[\\w0-9_-]+$", text.as_str());
        token_for_name(body, beg, end, verdict)
    }
}

/// Makes the token for the substitution whose body is `expr` from `beg` to
/// `end`.
fn make_subst(expr: &[char], beg: usize, end: usize) -> (r: Result<Token, ParseError>)
    requires
        beg <= end < expr@.len(),
    ensures
        token_result_view(r) == subst_token(expr@, beg, end),
{
    if beg == end {
        proof {
            broadcast use vstd::slice::group_slice_axioms;

            assert(expr@.len() == expr.len());
        }
        return Err(ParseError::ZeroLengthSubst(beg, end + 1));
    }
    validate_substitution_expr(vstd::slice::slice_subrange(expr, beg, end), beg, end)
}

/// Counts the opening and the closing brackets of `s` that are not escaped.
fn count_brackets(s: &[char]) -> (r: (usize, usize))
    ensures
        r.0 == open_count(s@, s@.len() as int),
        r.1 == close_count(s@, s@.len() as int),
{
    let mut opening: usize = 0;
    let mut closing: usize = 0;
    let mut i: usize = 0;
    while i < s.len()
        invariant
            i <= s.len(),
            opening <= i,
            closing <= i,
            opening == open_count(s@, i as int),
            closing == close_count(s@, i as int),
        decreases s.len() - i,
    {
        let escaped = i > 0 && s[i - 1] == '\\';
        if s[i] == '<' && !escaped {
            opening += 1;
        }
        if s[i] == '>' && !escaped {
            closing += 1;
        }
        i += 1;
    }
    (opening, closing)
}

/// Parses a rule into its tokens.
///
/// Literal text between substitutions becomes a literal token, with escaped
/// brackets written without their backslash. A closing bracket that is not
/// escaped ends a substitution whose body starts after the last boundary.
pub fn make_expr(expr: &str) -> (r: Result<Vec<Token>, ParseError>)
    ensures
        parsed_view(r) == parse_rule(expr@),
{
    let chars = chars_of(expr);
    let s = chars.as_slice();
    let n = s.len();
    if n == 0 {
        return Err(ParseError::EmptyRule);
    }
    let (opening, closing) = count_brackets(s);
    if opening != closing {
        return Err(ParseError::UnbalancedBrackets);
    }
    let mut tokens: Vec<Token> = Vec::new();
    let mut inside = false;
    let mut start: usize = 0;
    let mut i: usize = 0;
    assert(token_views(tokens@) =~= Seq::<TokenView>::empty());
    assert(prepend(Seq::<TokenView>::empty(), scan(s@, 0, 0, false)) == scan(s@, 0, 0, false)) by {
        match scan(s@, 0, 0, false) {
            Ok(t) => {
                assert(Seq::<TokenView>::empty() + t =~= t);
            },
            Err(_) => {},
        }
    }
    while i < n
        invariant
            n == s@.len(),
            s@ == expr@,
            start <= i <= n,
            parse_rule(expr@) == prepend(token_views(tokens@), scan(s@, i as int, start as int, inside)),
        decreases n - i,
    {
        let escaped = i > 0 && s[i - 1] == '\\';
        let ghost before = token_views(tokens@);
        if s[i] == '<' && !escaped && !inside {
            if start != i {
                let literal = make_literal(s, start, i);
                tokens.push(literal);
                proof {
                    assert(token_views(tokens@) =~= before + seq![literal@]);
                    lemma_prepend_twice(before, seq![literal@], scan(s@, i + 1, i + 1, true));
                }
            } else {
                proof {
                    lemma_prepend_twice(
                        before,
                        Seq::<TokenView>::empty(),
                        scan(s@, i + 1, i + 1, true),
                    );
                    assert(before + Seq::<TokenView>::empty() =~= before);
                }
            }
            start = i + 1;
            inside = true;
        } else if s[i] == '>' && !escaped {
            match make_subst(s, start, i) {
                Ok(token) => {
                    let ghost view = token@;
                    tokens.push(token);
                    proof {
                        assert(token_views(tokens@) =~= before + seq![view]);
                        lemma_prepend_twice(before, seq![view], scan(s@, i + 1, i + 1, false));
                    }
                },
                Err(e) => {
                    return Err(e);
                },
            }
            start = i + 1;
            inside = false;
        }
        i += 1;
    }
    if start < n {
        let literal = make_literal(s, start, n);
        let ghost before = token_views(tokens@);
        tokens.push(literal);
        assert(token_views(tokens@) =~= before + seq![literal@]);
    } else {
        assert(token_views(tokens@) + Seq::<TokenView>::empty() =~= token_views(tokens@));
    }
    Ok(tokens)
}

/// Putting `first` and then `second` in front is putting both in front.
pub proof fn lemma_prepend_twice(
    first: Seq<TokenView>,
    second: Seq<TokenView>,
    rest: Result<Seq<TokenView>, ParseError>,
)
    ensures
        prepend(first, prepend(second, rest)) == prepend(first + second, rest),
{
    match rest {
        Ok(tokens) => {
            assert(first + (second + tokens) =~= (first + second) + tokens);
        },
        Err(_) => {},
    }
}

/// Parses a rule into its tokens. The error names the rule.
pub fn parse(expr: &str) -> (r: Result<Vec<Token>, AnnalsError>)
    ensures
        match r {
            Ok(tokens) => parse_rule(expr@) == Ok::<Seq<TokenView>, ParseError>(
                token_views(tokens@),
            ),
            Err(e) => parse_rule(expr@) is Err && e@ == (ErrorView::InvalidRule {
                err: parse_rule(expr@)->Err_0,
                expr: expr@,
            }),
        },
{
    match make_expr(expr) {
        Ok(tokens) => Ok(tokens),
        Err(error) => Err(AnnalsError::from_invalid_rule(expr.to_owned(), error)),
    }
}

/// Whether every token of `tokens` is a literal.
pub open spec fn all_literal(tokens: Seq<TokenView>) -> bool {
    forall|i: int| 0 <= i < tokens.len() ==> (#[trigger] tokens[i]) is Literal
}

/// The texts of the literal tokens of `tokens`, one after the other.
pub open spec fn literal_text(tokens: Seq<TokenView>) -> Seq<char>
    decreases tokens.len(),
{
    if tokens.len() == 0 {
        Seq::<char>::empty()
    } else {
        literal_text(tokens.drop_last()) + match tokens.last() {
            TokenView::Literal(text) => text,
            _ => Seq::<char>::empty(),
        }
    }
}

/// A rule in which the brackets that are not escaped do not pair up is
/// rejected as unbalanced.
pub proof fn lemma_unbalanced_rejected(s: Seq<char>)
    requires
        open_count(s, s.len() as int) != close_count(s, s.len() as int),
    ensures
        parse_rule(s) == Err::<Seq<TokenView>, ParseError>(ParseError::UnbalancedBrackets),
{
}

/// The body of a substitution never gives a literal token.
pub proof fn lemma_body_token_not_literal(body: Seq<char>, beg: usize, end: usize)
    ensures
        body_token(body, beg, end) matches Ok(token) ==> !(token is Literal),
{
}

/// Where scanning from `i` gives literal tokens only, no closing bracket that
/// is not escaped stands at `i` or after it.
pub proof fn lemma_literal_scan_has_no_close(s: Seq<char>, i: int, start: int, inside: bool)
    requires
        0 <= start <= i <= s.len(),
        scan(s, i, start, inside) is Ok,
        all_literal(scan(s, i, start, inside)->Ok_0),
    ensures
        forall|j: int| i <= j < s.len() ==> !closes_at(s, j),
    decreases s.len() - i,
{
    if i < s.len() {
        let tokens = scan(s, i, start, inside)->Ok_0;
        if opens_at(s, i) && !inside {
            let front = if start != i {
                seq![literal_token(s, start, i)]
            } else {
                Seq::<TokenView>::empty()
            };
            let rest = scan(s, i + 1, i + 1, true);
            assert(rest is Ok);
            assert forall|k: int| 0 <= k < rest->Ok_0.len() implies (#[trigger] rest->Ok_0[k]) is Literal by {
                assert(tokens[front.len() + k] == rest->Ok_0[k]);
            }
            lemma_literal_scan_has_no_close(s, i + 1, i + 1, true);
        } else if closes_at(s, i) {
            let token = subst_token(s, start as usize, i as usize)->Ok_0;
            lemma_body_token_not_literal(
                s.subrange(start as usize as int, i as usize as int),
                start as usize,
                i as usize,
            );
            let rest = scan(s, i + 1, i + 1, false);
            assert(tokens[0] == token);
            assert(false);
        } else {
            lemma_literal_scan_has_no_close(s, i + 1, start, inside);
        }
    }
}

/// Without closing brackets that are not escaped, their count is zero.
pub proof fn lemma_no_close_count(s: Seq<char>, n: int)
    requires
        0 <= n <= s.len(),
        forall|j: int| 0 <= j < n ==> !closes_at(s, j),
    ensures
        close_count(s, n) == 0,
    decreases n,
{
    if n > 0 {
        lemma_no_close_count(s, n - 1);
    }
}

/// Where the count of opening brackets that are not escaped is zero, there is
/// none.
pub proof fn lemma_open_count_zero(s: Seq<char>, n: int)
    requires
        0 <= n <= s.len(),
        open_count(s, n) == 0,
    ensures
        forall|j: int| 0 <= j < n ==> !opens_at(s, j),
    decreases n,
{
    if n > 0 {
        lemma_open_count_zero(s, n - 1);
    }
}

/// Text without brackets that are not escaped scans to one literal token.
pub proof fn lemma_scan_plain(s: Seq<char>, i: int, start: int, inside: bool)
    requires
        0 <= start <= i <= s.len(),
        start < s.len(),
        forall|j: int| i <= j < s.len() ==> !opens_at(s, j) && !closes_at(s, j),
    ensures
        scan(s, i, start, inside) == Ok::<Seq<TokenView>, ParseError>(
            seq![literal_token(s, start, s.len() as int)],
        ),
    decreases s.len() - i,
{
    if i < s.len() {
        lemma_scan_plain(s, i + 1, start, inside);
    }
}

/// Where a rule parses to literal tokens only, their texts, one after the
/// other, are the rule with its escaped brackets written plainly.
pub proof fn lemma_literal_round_trip(s: Seq<char>)
    requires
        parse_rule(s) is Ok,
        all_literal(parse_rule(s)->Ok_0),
    ensures
        literal_text(parse_rule(s)->Ok_0) == unescape(s),
{
    lemma_literal_scan_has_no_close(s, 0, 0, false);
    lemma_no_close_count(s, s.len() as int);
    lemma_open_count_zero(s, s.len() as int);
    lemma_scan_plain(s, 0, 0, false);
    let tokens = parse_rule(s)->Ok_0;
    assert(tokens == seq![literal_token(s, 0, s.len() as int)]);
    assert(s.subrange(0, s.len() as int) == s);
    assert(tokens.drop_last() == Seq::<TokenView>::empty());
    assert(literal_text(tokens.drop_last()) == Seq::<char>::empty());
    assert(Seq::<char>::empty() + unescape(s) == unescape(s));
}

/// Where scanning gives no token at all, nothing is left to scan, or all
/// that is left is an opening bracket at the very end.
pub proof fn lemma_scan_empty(s: Seq<char>, i: int, start: int, inside: bool)
    requires
        0 <= start <= i <= s.len(),
        scan(s, i, start, inside) == Ok::<Seq<TokenView>, ParseError>(Seq::<TokenView>::empty()),
    ensures
        start == s.len() || (!inside && start == s.len() - 1 && opens_at(s, start)),
    decreases s.len() - i,
{
    if i < s.len() {
        if opens_at(s, i) && !inside {
            let rest = scan(s, i + 1, i + 1, true);
            assert(rest is Ok);
            assert(rest->Ok_0.len() == 0);
            assert(rest->Ok_0 =~= Seq::<TokenView>::empty());
            lemma_scan_empty(s, i + 1, i + 1, true);
        } else if closes_at(s, i) {
            let rest = scan(s, i + 1, i + 1, false);
            let token = subst_token(s, start as usize, i as usize)->Ok_0;
            assert((seq![token] + rest->Ok_0).len() > 0);
        } else {
            lemma_scan_empty(s, i + 1, start, inside);
        }
    }
}

/// A rule that parses has at least one token.
pub proof fn lemma_rule_has_tokens(s: Seq<char>)
    requires
        parse_rule(s) is Ok,
    ensures
        parse_rule(s)->Ok_0.len() > 0,
{
    let tokens = parse_rule(s)->Ok_0;
    if tokens.len() == 0 {
        assert(tokens =~= Seq::<TokenView>::empty());
        lemma_scan_empty(s, 0, 0, false);
        assert(s.len() == 1);
        reveal_with_fuel(open_count, 2);
        reveal_with_fuel(close_count, 2);
        assert(false);
    }
}

} // verus!
