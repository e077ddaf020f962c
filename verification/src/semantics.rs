//! What expanding a grammar means: which texts a token, a list of tokens or
//! a name may give in a context, and how the context changes.
//!
//! Rules are chosen at random and ranges draw numbers, so one expansion has
//! many possible outcomes. The predicates here say which they are.

use vstd::prelude::*;
use crate::cognate::CognateView;
use crate::context::ContextView;
use crate::dict::compatible;
use crate::error::ErrorView;
use crate::group::{flatten, GroupView};
use crate::outside::{lowercase_of, titlecase_of, uppercase_of};
use crate::parse::{Command, TokenView};
use crate::rule::RuleView;
use crate::text::decimal;

verus! {

/// A grammar: its cognates by name.
pub type Grammar = Map<Seq<char>, CognateView>;

/// How an expansion ends: with a text or an error, and with a context.
pub struct Outcome {
    pub result: Result<Seq<char>, ErrorView>,
    pub context: ContextView,
}

/// Those of `groups`, in order, whose tags agree with `tags`.
pub open spec fn accepted(groups: Seq<GroupView>, tags: Map<Seq<char>, Seq<char>>) -> Seq<
    GroupView,
>
    decreases groups.len(),
{
    if groups.len() == 0 {
        Seq::<GroupView>::empty()
    } else if compatible(tags, groups.last().tags) {
        accepted(groups.drop_last(), tags).push(groups.last())
    } else {
        accepted(groups.drop_last(), tags)
    }
}

/// The rules that may be chosen for `name` under the tags `tags`, each with
/// its group, or the reason why none can be chosen.
pub open spec fn candidates(grammar: Grammar, name: Seq<char>, tags: Map<Seq<char>, Seq<char>>) -> Result<
    Seq<(RuleView, GroupView)>,
    ErrorView,
> {
    if !grammar.contains_key(name) {
        Err(ErrorView::UnknownCognate { name })
    } else if grammar[name].groups.len() == 0 {
        Err(ErrorView::EmptyCognate { name })
    } else if accepted(grammar[name].groups, tags).len() == 0 {
        Err(ErrorView::NoSuitableGroups { name, tags })
    } else if flatten(accepted(grammar[name].groups, tags)).len() == 0 {
        Err(ErrorView::EmptyCognate { name })
    } else {
        Ok(flatten(accepted(grammar[name].groups, tags)))
    }
}

/// Whether `c` is one of the vowels `a e i o u`, in either case.
pub open spec fn is_vowel(c: char) -> bool {
    c == 'a' || c == 'e' || c == 'i' || c == 'o' || c == 'u' || c == 'A' || c == 'E' || c == 'I'
        || c == 'O' || c == 'U'
}

/// What a command makes of a text. Every command leaves the empty text
/// empty.
pub open spec fn transformed(command: Command, text: Seq<char>) -> Seq<char> {
    if text.len() == 0 {
        Seq::<char>::empty()
    } else {
        match command {
            Command::Capitalize => uppercase_of(text[0]) + text.skip(1),
            Command::Lowercase => lowercase_of(text),
            Command::Titlecase => titlecase_of(text),
            Command::IndefiniteArticle => if is_vowel(text[0]) {
                "an "@ + text
            } else {
                "a "@ + text
            },
        }
    }
}

/// How deep the expressions of a token nest.
pub open spec fn height(token: TokenView) -> nat
    decreases token,
{
    match token {
        TokenView::Expression(_, inner) => 1 + height(*inner),
        _ => 0,
    }
}

/// The outcome of a scope whose body ended in `body`: the scope is closed.
pub open spec fn closed_scope(body: Outcome) -> Outcome {
    Outcome { result: body.result, context: body.context.ascend() }
}

/// The outcome of a sticky name whose expansion ended in `mid`: a text is
/// bound to the name.
pub open spec fn kept(name: Seq<char>, mid: Outcome) -> Outcome {
    match mid.result {
        Ok(text) => Outcome { result: Ok(text), context: mid.context.bind(name, text) },
        Err(_) => mid,
    }
}

/// The outcome of an expression whose inner token ended in `mid`: a text is
/// transformed.
pub open spec fn through(command: Command, mid: Outcome) -> Outcome {
    Outcome {
        result: match mid.result {
            Ok(text) => Ok(transformed(command, text)),
            Err(e) => Err(e),
        },
        context: mid.context,
    }
}

/// The outcome of an assignment whose rule ended in `body`: a text is bound
/// to the name, read, and unbound again.
pub open spec fn assigned(name: Seq<char>, body: Outcome) -> Outcome {
    match body.result {
        Ok(text) => Outcome { result: Ok(text), context: body.context.bind(name, text).unbind(name) },
        Err(_) => body,
    }
}

/// The outcome of a list of tokens of which all but the last ended in
/// `front` and, where that was no error, the last ended in `last`.
pub open spec fn sequel(front: Outcome, last: Outcome) -> Outcome {
    match front.result {
        Err(_) => front,
        Ok(text) => Outcome {
            result: match last.result {
                Ok(more) => Ok(text + more),
                Err(e) => Err(e),
            },
            context: last.context,
        },
    }
}

/// Whether choosing a rule for `name` and expanding it in `context` may end
/// in `out`. `depth` is how many more choices may nest.
pub open spec fn rule_yields(
    grammar: Grammar,
    name: Seq<char>,
    context: ContextView,
    depth: nat,
    out: Outcome,
) -> bool
    decreases depth, 0nat, 0nat,
{
    if depth == 0 {
        out == (Outcome { result: Err(ErrorView::DepthExceeded { name }), context })
    } else {
        match candidates(grammar, name, context.tags) {
            Err(e) => out == (Outcome { result: Err(e), context }),
            Ok(choices) => exists|i: int|
                0 <= i < choices.len() && tokens_yield(
                    grammar,
                    (#[trigger] choices[i]).0.tokens,
                    context.merge(choices[i].1.tags),
                    (depth - 1) as nat,
                    out,
                ),
        }
    }
}

/// Whether expanding the name `name` in `context` may end in `out`: in a
/// scope of its own, the bound value where the name is bound, otherwise the
/// expansion of a rule chosen for it.
pub open spec fn name_yields(
    grammar: Grammar,
    name: Seq<char>,
    context: ContextView,
    depth: nat,
    out: Outcome,
) -> bool
    decreases depth, 1nat, 0nat,
{
    let inner = context.descend();
    if inner.bindings.contains_key(name) {
        out == (Outcome { result: Ok(inner.bindings[name]), context: inner.ascend() })
    } else {
        exists|body: Outcome|
            rule_yields(grammar, name, inner, depth, body) && out == #[trigger] closed_scope(body)
    }
}

/// Whether evaluating `token` in `context` may end in `out`.
pub open spec fn token_yields(
    grammar: Grammar,
    token: TokenView,
    context: ContextView,
    depth: nat,
    out: Outcome,
) -> bool
    decreases depth, 2nat, height(token),
{
    match token {
        TokenView::Literal(text) => out == (Outcome { result: Ok(text), context }),
        TokenView::NonTerminal(name) => name_yields(grammar, name, context, depth, out),
        TokenView::StickyNonTerminal(name) => exists|mid: Outcome|
            name_yields(grammar, name, context, depth, mid) && out == #[trigger] kept(name, mid),
        TokenView::Binding(name) => out == (Outcome {
            result: if context.bindings.contains_key(name) {
                Ok(context.bindings[name])
            } else {
                Err(ErrorView::UnboundVariable { name })
            },
            context,
        }),
        TokenView::Expression(command, inner) => exists|mid: Outcome|
            token_yields(grammar, *inner, context, depth, mid) && out == #[trigger] through(
                command,
                mid,
            ),
        TokenView::Range(lower, upper) => if lower < upper {
            exists|n: int|
                lower <= n < upper && out == (Outcome {
                    result: Ok(#[trigger] decimal(n as nat)),
                    context,
                })
        } else {
            out == (Outcome { result: Err(ErrorView::EmptyRange { lower, upper }), context })
        },
        TokenView::VariableAssignment(name, rule) => if context.bindings.contains_key(name) {
            out == (Outcome { result: Ok(Seq::<char>::empty()), context })
        } else {
            exists|body: Outcome|
                rule_yields(grammar, rule, context, depth, body) && out == #[trigger] assigned(
                    name,
                    body,
                )
        },
    }
}

/// Whether evaluating `tokens` one after the other, starting in `context`,
/// may end in `out`. The texts are joined; the first error ends the
/// evaluation.
pub open spec fn tokens_yield(
    grammar: Grammar,
    tokens: Seq<TokenView>,
    context: ContextView,
    depth: nat,
    out: Outcome,
) -> bool
    decreases depth, 3nat, tokens.len(),
{
    if tokens.len() == 0 {
        out == (Outcome { result: Ok(Seq::<char>::empty()), context })
    } else {
        exists|front: Outcome, last: Outcome|
            tokens_yield(grammar, tokens.drop_last(), context, depth, front) && (front.result is Ok
                ==> token_yields(grammar, tokens.last(), front.context, depth, last)) && out
                == #[trigger] sequel(front, last)
    }
}

} // verus!
