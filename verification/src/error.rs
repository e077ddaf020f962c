//! What can go wrong when a rule is parsed and when text is generated.

use vstd::prelude::*;
use vstd::string::*;
use crate::dict::{listing_text, StrMap};
use crate::outside::push_char;
use crate::text::{decimal, decimal_string};

verus! {

/// Why a rule could not be parsed. Where a variant carries two numbers, they
/// are the half-open span, in characters, of the part of the rule that is at
/// fault.
#[derive(Debug, Clone, Copy, PartialEq, Eq)]
pub enum ParseError {
    EmptyRule,
    InternalError,
    InvalidExpression(usize, usize),
    InvalidName(usize, usize),
    InvalidRange(usize, usize),
    UnbalancedBrackets,
    UnknownCommand(usize, usize),
    ZeroLengthSubst(usize, usize),
}

/// Why no text could be generated.
#[derive(Debug, Clone)]
pub enum AnnalsError {
    /// No cognate has this name.
    UnknownCognate { name: String },
    /// The cognate has no group, or the groups that match hold no rule.
    EmptyCognate { name: String },
    /// No group of the cognate matches the tags of the context.
    NoSuitableGroups { name: String, tags: StrMap<String> },
    UnknownToken { content: String },
    /// A binding was read that is not bound.
    UnboundVariable { name: String },
    SerdeError { msg: String },
    /// The rule `expr` does not parse.
    InvalidRule { err: ParseError, expr: String },
    /// Expanding this cognate would nest deeper than the scribe allows.
    DepthExceeded { name: String },
    /// A range token whose lower bound is not below its upper bound.
    EmptyRange { lower: usize, upper: usize },
    UnknownError,
}

/// An [`AnnalsError`] with its strings as sequences of characters and its
/// tags as a map.
pub enum ErrorView {
    UnknownCognate { name: Seq<char> },
    EmptyCognate { name: Seq<char> },
    NoSuitableGroups { name: Seq<char>, tags: Map<Seq<char>, Seq<char>> },
    UnknownToken { content: Seq<char> },
    UnboundVariable { name: Seq<char> },
    SerdeError { msg: Seq<char> },
    InvalidRule { err: ParseError, expr: Seq<char> },
    DepthExceeded { name: Seq<char> },
    EmptyRange { lower: usize, upper: usize },
    UnknownError,
}

impl View for AnnalsError {
    type V = ErrorView;

    open spec fn view(&self) -> ErrorView {
        match *self {
            AnnalsError::UnknownCognate { name } => ErrorView::UnknownCognate { name: name@ },
            AnnalsError::EmptyCognate { name } => ErrorView::EmptyCognate { name: name@ },
            AnnalsError::NoSuitableGroups { name, tags } => ErrorView::NoSuitableGroups {
                name: name@,
                tags: tags@,
            },
            AnnalsError::UnknownToken { content } => ErrorView::UnknownToken { content: content@ },
            AnnalsError::UnboundVariable { name } => ErrorView::UnboundVariable { name: name@ },
            AnnalsError::SerdeError { msg } => ErrorView::SerdeError { msg: msg@ },
            AnnalsError::InvalidRule { err, expr } => ErrorView::InvalidRule { err, expr: expr@ },
            AnnalsError::DepthExceeded { name } => ErrorView::DepthExceeded { name: name@ },
            AnnalsError::EmptyRange { lower, upper } => ErrorView::EmptyRange { lower, upper },
            AnnalsError::UnknownError => ErrorView::UnknownError,
        }
    }
}

/// A span as it is written in a message: `(beg, end)`.
pub open spec fn span_text(beg: usize, end: usize) -> Seq<char> {
    "("@ + decimal(beg as nat) + ", "@ + decimal(end as nat) + ")"@
}

/// The message of a parse error.
pub open spec fn parse_error_text(err: ParseError) -> Seq<char> {
    match err {
        ParseError::EmptyRule => "Cannot create rule from empty string!"@,
        ParseError::InternalError => "Unknown error!"@,
        ParseError::InvalidExpression(beg, end) => "Invalid expression "@ + span_text(beg, end),
        ParseError::InvalidName(beg, end) => "Invalid name "@ + span_text(beg, end),
        ParseError::InvalidRange(beg, end) => "Invalid range specification "@ + span_text(
            beg,
            end,
        ),
        ParseError::UnbalancedBrackets => "Unbalanced brackets in expr"@,
        ParseError::UnknownCommand(beg, end) => "Unknown command "@ + span_text(beg, end),
        ParseError::ZeroLengthSubst(beg, end) => "Zero-length substitution expression "@
            + span_text(beg, end),
    }
}

/// `n` spaces.
pub open spec fn spaces(n: nat) -> Seq<char> {
    Seq::new(n, |i: int| ' ')
}

/// A rule and the caret that points at the start of the faulty span, with
/// the message of the error behind it.
pub open spec fn caret_text(err: ParseError, beg: usize, expr: Seq<char>) -> Seq<char> {
    "\n"@ + expr + "\n"@ + spaces(beg as nat) + "^-- "@ + parse_error_text(err)
}

/// The message for a rule that does not parse: a line break, and then what
/// is wrong with the rule.
pub open spec fn invalid_rule_text(err: ParseError, expr: Seq<char>) -> Seq<char> {
    match err {
        ParseError::EmptyRule => "\n"@ + parse_error_text(err),
        ParseError::InternalError => "\n"@ + "Unknown internal error while parsing:\n    "@ + expr,
        ParseError::UnbalancedBrackets => "\n"@ + "Unbalanced brackets in rule:\n    "@ + expr,
        ParseError::InvalidExpression(beg, _) => caret_text(err, beg, expr),
        ParseError::InvalidName(beg, _) => caret_text(err, beg, expr),
        ParseError::InvalidRange(beg, _) => caret_text(err, beg, expr),
        ParseError::UnknownCommand(beg, _) => caret_text(err, beg, expr),
        ParseError::ZeroLengthSubst(beg, _) => caret_text(err, beg, expr),
    }
}

/// The message of an error.
pub open spec fn error_text(err: AnnalsError) -> Seq<char> {
    match err {
        AnnalsError::UnknownCognate { name } => "Unknown cognate: "@ + name@,
        AnnalsError::EmptyCognate { name } => "No groups in cognate: "@ + name@,
        AnnalsError::NoSuitableGroups { name, tags } => "No suitable groups for "@ + name@
            + " in context: "@ + listing_text(tags.keys(), tags@),
        AnnalsError::UnknownToken { content } => "Unknown token: "@ + content@,
        AnnalsError::UnboundVariable { name } => "Unbound variable: "@ + name@,
        AnnalsError::SerdeError { msg } => msg@,
        AnnalsError::InvalidRule { err, expr } => invalid_rule_text(err, expr@),
        AnnalsError::DepthExceeded { name } => "Recursion limit reached in cognate: "@ + name@,
        AnnalsError::EmptyRange { lower, upper } => "Empty range "@ + span_text(lower, upper),
        AnnalsError::UnknownError => "Unknown error"@,
    }
}

/// Writes a span as `(beg, end)`.
fn span_string(beg: usize, end: usize) -> (s: String)
    ensures
        s@ == span_text(beg, end),
{
    let mut s = String::from_str("(");
    s.append(decimal_string(beg).as_str());
    s.append(", ");
    s.append(decimal_string(end).as_str());
    s.append(")");
    s
}

/// `head` followed by the span `(beg, end)`.
fn with_span(head: &str, beg: usize, end: usize) -> (s: String)
    ensures
        s@ == head@ + span_text(beg, end),
{
    let mut s = String::from_str(head);
    s.append(span_string(beg, end).as_str());
    s
}

/// `head` followed by `tail`.
fn joined(head: &str, tail: &str) -> (s: String)
    ensures
        s@ == head@ + tail@,
{
    let mut s = String::from_str(head);
    s.append(tail);
    s
}

impl ParseError {
    /// The message of this error.
    pub fn message(&self) -> (s: String)
        ensures
            s@ == parse_error_text(*self),
    {
        match *self {
            ParseError::EmptyRule => String::from_str("Cannot create rule from empty string!"),
            ParseError::InternalError => String::from_str("Unknown error!"),
            ParseError::InvalidExpression(beg, end) => with_span("Invalid expression ", beg, end),
            ParseError::InvalidName(beg, end) => with_span("Invalid name ", beg, end),
            ParseError::InvalidRange(beg, end) => with_span(
                "Invalid range specification ",
                beg,
                end,
            ),
            ParseError::UnbalancedBrackets => String::from_str("Unbalanced brackets in expr"),
            ParseError::UnknownCommand(beg, end) => with_span("Unknown command ", beg, end),
            ParseError::ZeroLengthSubst(beg, end) => with_span(
                "Zero-length substitution expression ",
                beg,
                end,
            ),
        }
    }
}

/// The rule, and under it a caret at the start of the faulty span.
fn caret_string(err: &ParseError, beg: usize, expr: &str) -> (s: String)
    ensures
        s@ == caret_text(*err, beg, expr@),
{
    let mut s = String::from_str("\n");
    s.append(expr);
    s.append("\n");
    let ghost head = s@;
    let mut i: usize = 0;
    while i < beg
        invariant
            i <= beg,
            s@ == head + spaces(i as nat),
        decreases beg - i,
    {
        push_char(&mut s, ' ');
        assert(spaces(i as nat).push(' ') =~= spaces((i + 1) as nat));
        assert(s@ =~= head + spaces((i + 1) as nat));
        i += 1;
    }
    s.append("^-- ");
    s.append(err.message().as_str());
    s
}

/// The message for the rule `expr`, which failed to parse with `err`. It
/// starts with a line break.
pub fn format_invalid_rule(err: &ParseError, expr: &str) -> (s: String)
    ensures
        s@ == invalid_rule_text(*err, expr@),
{
    match *err {
        ParseError::EmptyRule => joined("\n", err.message().as_str()),
        ParseError::InternalError => {
            let mut s = String::from_str("\n");
            s.append("Unknown internal error while parsing:\n    ");
            s.append(expr);
            s
        },
        ParseError::UnbalancedBrackets => {
            let mut s = String::from_str("\n");
            s.append("Unbalanced brackets in rule:\n    ");
            s.append(expr);
            s
        },
        ParseError::InvalidExpression(beg, _) => caret_string(err, beg, expr),
        ParseError::InvalidName(beg, _) => caret_string(err, beg, expr),
        ParseError::InvalidRange(beg, _) => caret_string(err, beg, expr),
        ParseError::UnknownCommand(beg, _) => caret_string(err, beg, expr),
        ParseError::ZeroLengthSubst(beg, _) => caret_string(err, beg, expr),
    }
}

impl AnnalsError {
    /// The error for the rule `expr`, which failed to parse with `err`.
    pub fn from_invalid_rule(expr: String, err: ParseError) -> (e: Self)
        ensures
            e@ == (ErrorView::InvalidRule { err, expr: expr@ }),
    {
        AnnalsError::InvalidRule { err, expr }
    }

    /// The message of this error.
    pub fn message(&self) -> (s: String)
        ensures
            s@ == error_text(*self),
    {
        match self {
            AnnalsError::UnknownCognate { name } => joined("Unknown cognate: ", name.as_str()),
            AnnalsError::EmptyCognate { name } => joined("No groups in cognate: ", name.as_str()),
            AnnalsError::NoSuitableGroups { name, tags } => {
                let mut s = String::from_str("No suitable groups for ");
                s.append(name.as_str());
                s.append(" in context: ");
                s.append(tags.describe().as_str());
                s
            },
            AnnalsError::UnknownToken { content } => joined("Unknown token: ", content.as_str()),
            AnnalsError::UnboundVariable { name } => joined("Unbound variable: ", name.as_str()),
            AnnalsError::SerdeError { msg } => msg.clone(),
            AnnalsError::InvalidRule { err, expr } => format_invalid_rule(err, expr.as_str()),
            AnnalsError::DepthExceeded { name } => joined(
                "Recursion limit reached in cognate: ",
                name.as_str(),
            ),
            AnnalsError::EmptyRange { lower, upper } => with_span("Empty range ", *lower, *upper),
            AnnalsError::UnknownError => String::from_str("Unknown error"),
        }
    }
}

} // verus!
