//! A rule: one template string together with its tokens.

use vstd::prelude::*;
use crate::error::{AnnalsError, ErrorView, ParseError};
use crate::parse::{
    lemma_rule_has_tokens, parse, parse_rule, token_views, Token, TokenView,
};

verus! {

/// One alternative of a grammar: the text it was written as, and the tokens
/// that the text parses to.
#[derive(Debug, PartialEq)]
pub struct Rule {
    literal: String,
    tokens: Vec<Token>,
}

/// A [`Rule`] as sequences.
pub struct RuleView {
    pub literal: Seq<char>,
    pub tokens: Seq<TokenView>,
}

impl View for Rule {
    type V = RuleView;

    closed spec fn view(&self) -> RuleView {
        RuleView { literal: self.literal@, tokens: token_views(self.tokens@) }
    }
}

/// The outcome of making a rule from `expr`: the rule, or the error that
/// names `expr`.
pub open spec fn made_from(r: Result<Rule, AnnalsError>, expr: Seq<char>) -> bool {
    match r {
        Ok(rule) => parse_rule(expr) == Ok::<Seq<TokenView>, ParseError>(rule@.tokens)
            && rule@.literal == expr,
        Err(e) => parse_rule(expr) is Err && e@ == (ErrorView::InvalidRule {
            err: parse_rule(expr)->Err_0,
            expr,
        }),
    }
}

impl Rule {
    #[verifier::type_invariant]
    spec fn parsed(&self) -> bool {
        parse_rule(self.literal@) == Ok::<Seq<TokenView>, ParseError>(token_views(self.tokens@))
    }

    /// The tokens of the rule.
    pub closed spec fn token_seq(&self) -> Seq<Token> {
        self.tokens@
    }

    /// Makes a rule from its text. This succeeds exactly where the text
    /// parses.
    pub fn new(expr: &str) -> (r: Result<Self, AnnalsError>)
        ensures
            made_from(r, expr@),
    {
        let literal = expr.to_owned();
        match parse(expr) {
            Ok(tokens) => Ok(Rule { literal, tokens }),
            Err(e) => Err(e),
        }
    }

    /// Makes a rule from its text, which it keeps.
    pub fn from_string(literal: String) -> (r: Result<Self, AnnalsError>)
        ensures
            made_from(r, literal@),
    {
        match parse(literal.as_str()) {
            Ok(tokens) => Ok(Rule { literal, tokens }),
            Err(e) => Err(e),
        }
    }

    /// The number of tokens. A rule has at least one.
    pub fn len(&self) -> (n: usize)
        ensures
            n == self@.tokens.len(),
            n > 0,
    {
        proof {
            use_type_invariant(self);
            lemma_rule_has_tokens(self.literal@);
        }
        self.tokens.len()
    }

    /// Whether the rule has no token. No rule is empty: the empty text is
    /// no rule, and every other text that parses gives a token.
    pub fn is_empty(&self) -> (b: bool)
        ensures
            b == (self@.tokens.len() == 0),
            !b,
    {
        proof {
            use_type_invariant(self);
            lemma_rule_has_tokens(self.literal@);
        }
        self.tokens.len() == 0
    }

    /// An iterator over the tokens, in order.
    pub fn iter(&self) -> (r: std::slice::Iter<'_, Token>)
        ensures
            vstd::std_specs::iter::IteratorSpec::remaining(&r) == self.token_seq().as_ref(),
            token_views(self.token_seq()) == self@.tokens,
    {
        broadcast use vstd::std_specs::slice::axiom_spec_slice_iter;

        self.tokens.as_slice().iter()
    }

    /// The text that the rule was made from.
    pub fn literal(&self) -> (r: &str)
        ensures
            r@ == self@.literal,
            parse_rule(r@) == Ok::<Seq<TokenView>, ParseError>(self@.tokens),
    {
        proof {
            use_type_invariant(self);
        }
        self.literal.as_str()
    }

    /// The tokens that the text of the rule parses to.
    pub fn tokens(&self) -> (r: &[Token])
        ensures
            r@ == self.token_seq(),
            token_views(r@) == self@.tokens,
            parse_rule(self@.literal) == Ok::<Seq<TokenView>, ParseError>(self@.tokens),
    {
        proof {
            use_type_invariant(self);
        }
        self.tokens.as_slice()
    }
}

} // verus!
