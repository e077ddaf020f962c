//! What holds of every expansion, proved from the definitions of
//! [`crate::semantics`] and [`crate::context`].

use vstd::prelude::*;
use crate::context::ContextView;
use crate::dict::compatible;
use crate::error::ErrorView;
use crate::group::{block, flatten, GroupView};
use crate::parse::{Command, TokenView};
use crate::semantics::{
    accepted, assigned, candidates, closed_scope, is_vowel, kept, name_yields, rule_yields,
    sequel, through, token_yields, tokens_yield, transformed, Grammar, Outcome,
};

verus! {

/// A scope that is opened and closed at once leaves the context as it was.
pub proof fn lemma_scope_restores(context: ContextView)
    ensures
        context.descend().ascend() == context,
{
    let inner = context.descend();
    assert(inner.frames.drop_last() =~= context.frames);
    assert(inner.frames.last().to_set() =~= Set::<Seq<char>>::empty());
    assert(inner.bindings.remove_keys(Set::<Seq<char>>::empty()) =~= context.bindings);
}

/// A name that is bound inside a scope is unbound when the scope is closed,
/// whatever it was bound to before. Nothing else changes.
pub proof fn lemma_scope_unwinds(context: ContextView, key: Seq<char>, value: Seq<char>)
    ensures
        context.descend().bind(key, value).ascend() == context.unbind(key),
{
    let inner = context.descend().bind(key, value);
    assert(inner.frames.drop_last() =~= context.frames);
    assert(inner.frames.last() =~= seq![key]);
    assert(seq![key].to_set() =~= set![key]) by {
        assert forall|k: Seq<char>| seq![key].to_set().contains(k) <==> set![key].contains(k) by {
            if k == key {
                assert(seq![key][0] == k);
            }
        }
    }
    assert(inner.bindings.remove_keys(set![key]) =~= context.bindings.remove(key));
}

/// Closing a scope never changes the tags: what a chosen group has set stays
/// set.
pub proof fn lemma_tags_outlive_scopes(context: ContextView)
    ensures
        context.ascend().tags == context.tags,
        context.descend().tags == context.tags,
{
}

/// Every accepted group is one of the groups and agrees with the tags.
pub proof fn lemma_accepted_fit(groups: Seq<GroupView>, tags: Map<Seq<char>, Seq<char>>, i: int)
    requires
        0 <= i < accepted(groups, tags).len(),
    ensures
        groups.contains(accepted(groups, tags)[i]),
        compatible(tags, accepted(groups, tags)[i].tags),
    decreases groups.len(),
{
    let front = groups.drop_last();
    let kept = accepted(front, tags);
    if compatible(tags, groups.last().tags) && i == kept.len() {
        assert(groups[groups.len() - 1] == groups.last());
    } else {
        lemma_accepted_fit(front, tags, i);
        let j = choose|j: int| 0 <= j < front.len() && front[j] == kept[i];
        assert(groups[j] == kept[i]);
    }
}

/// Every pair of the flat list is a rule of one of the groups, with that
/// group.
pub proof fn lemma_flatten_fit(groups: Seq<GroupView>, i: int)
    requires
        0 <= i < flatten(groups).len(),
    ensures
        groups.contains(flatten(groups)[i].1),
        flatten(groups)[i].1.rules.contains(flatten(groups)[i].0),
    decreases groups.len(),
{
    let front = groups.drop_last();
    if i < flatten(front).len() {
        lemma_flatten_fit(front, i);
        let j = choose|j: int| 0 <= j < front.len() && front[j] == flatten(groups)[i].1;
        assert(groups[j] == flatten(groups)[i].1);
    } else {
        let last = groups.last();
        let r = i - flatten(front).len();
        assert(flatten(groups)[i] == block(last)[r]);
        assert(groups[groups.len() - 1] == last);
        assert(last.rules[r] == flatten(groups)[i].0);
    }
}

/// Only rules of groups that agree with the tags can be chosen: every
/// candidate is a rule of a group of the cognate, and the tags of that group
/// give every tag that they share with the given tags the same value.
pub proof fn lemma_candidates_fit(
    grammar: Grammar,
    name: Seq<char>,
    tags: Map<Seq<char>, Seq<char>>,
    i: int,
)
    requires
        candidates(grammar, name, tags) is Ok,
        0 <= i < candidates(grammar, name, tags)->Ok_0.len(),
    ensures
        grammar.contains_key(name),
        grammar[name].groups.contains(candidates(grammar, name, tags)->Ok_0[i].1),
        candidates(grammar, name, tags)->Ok_0[i].1.rules.contains(
            candidates(grammar, name, tags)->Ok_0[i].0,
        ),
        compatible(tags, candidates(grammar, name, tags)->Ok_0[i].1.tags),
{
    let groups = grammar[name].groups;
    let fitting = accepted(groups, tags);
    lemma_flatten_fit(fitting, i);
    let group = flatten(fitting)[i].1;
    let j = choose|j: int| 0 <= j < fitting.len() && fitting[j] == group;
    lemma_accepted_fit(groups, tags, j);
}

/// A name that the grammar does not know cannot be expanded: the outcome is
/// the error that names it, and the context stays as it is.
pub proof fn lemma_unknown_cognate(
    grammar: Grammar,
    name: Seq<char>,
    context: ContextView,
    depth: nat,
    out: Outcome,
)
    requires
        depth > 0,
        !grammar.contains_key(name),
        rule_yields(grammar, name, context, depth, out),
    ensures
        out == (Outcome { result: Err(ErrorView::UnknownCognate { name }), context }),
{
}

/// Reading a name that is not bound fails with the error that names it, and
/// the context stays as it is.
pub proof fn lemma_unbound_binding(
    grammar: Grammar,
    name: Seq<char>,
    context: ContextView,
    depth: nat,
    out: Outcome,
)
    requires
        !context.bindings.contains_key(name),
        token_yields(grammar, TokenView::Binding(name), context, depth, out),
    ensures
        out == (Outcome { result: Err(ErrorView::UnboundVariable { name }), context }),
{
}

/// The article before a text is `an` where the text starts with a vowel, and
/// `a` otherwise.
pub proof fn lemma_indefinite_article(text: Seq<char>)
    requires
        text.len() > 0,
    ensures
        transformed(Command::IndefiniteArticle, text) == if is_vowel(text[0]) {
            "an "@ + text
        } else {
            "a "@ + text
        },
{
}

/// After an assignment has given its text, its name is not bound: the
/// binding lasts for the evaluation of the assignment itself and no longer.
pub proof fn lemma_assignment_unbinds(
    grammar: Grammar,
    name: Seq<char>,
    rule: Seq<char>,
    context: ContextView,
    depth: nat,
    out: Outcome,
)
    requires
        !context.bindings.contains_key(name),
        token_yields(grammar, TokenView::VariableAssignment(name, rule), context, depth, out),
        out.result is Ok,
    ensures
        !out.context.bindings.contains_key(name),
{
    let body = choose|body: Outcome|
        rule_yields(grammar, rule, context, depth, body) && out == #[trigger] assigned(name, body);
}

/// Whether a context that an evaluation ends in fits the context it started
/// in: as many scopes are open as before, and no tag has been lost.
pub open spec fn settled(start: ContextView, end: ContextView) -> bool {
    &&& end.frames.len() == start.frames.len()
    &&& forall|key: Seq<char>| start.tags.contains_key(key) ==> end.tags.contains_key(key)
}

/// Expanding a chosen rule closes every scope that it opens and loses no
/// tag, also where it ends in an error.
pub proof fn lemma_rule_settles(
    grammar: Grammar,
    name: Seq<char>,
    context: ContextView,
    depth: nat,
    out: Outcome,
)
    requires
        rule_yields(grammar, name, context, depth, out),
    ensures
        settled(context, out.context),
    decreases depth, 0nat, 0nat,
{
    if depth > 0 {
        match candidates(grammar, name, context.tags) {
            Err(_) => {},
            Ok(choices) => {
                let i = choose|i: int|
                    0 <= i < choices.len() && tokens_yield(
                        grammar,
                        (#[trigger] choices[i]).0.tokens,
                        context.merge(choices[i].1.tags),
                        (depth - 1) as nat,
                        out,
                    );
                lemma_tokens_settle(
                    grammar,
                    choices[i].0.tokens,
                    context.merge(choices[i].1.tags),
                    (depth - 1) as nat,
                    out,
                );
            },
        }
    }
}

/// Expanding a name closes every scope that it opens and loses no tag, also
/// where it ends in an error.
pub proof fn lemma_name_settles(
    grammar: Grammar,
    name: Seq<char>,
    context: ContextView,
    depth: nat,
    out: Outcome,
)
    requires
        name_yields(grammar, name, context, depth, out),
    ensures
        settled(context, out.context),
    decreases depth, 1nat, 0nat,
{
    let inner = context.descend();
    if !inner.bindings.contains_key(name) {
        let body = choose|body: Outcome|
            rule_yields(grammar, name, inner, depth, body) && out == #[trigger] closed_scope(body);
        lemma_rule_settles(grammar, name, inner, depth, body);
    }
}

/// Evaluating a token closes every scope that it opens and loses no tag,
/// also where it ends in an error.
pub proof fn lemma_token_settles(
    grammar: Grammar,
    token: TokenView,
    context: ContextView,
    depth: nat,
    out: Outcome,
)
    requires
        token_yields(grammar, token, context, depth, out),
    ensures
        settled(context, out.context),
    decreases depth, 2nat, crate::semantics::height(token),
{
    match token {
        TokenView::Literal(_) => {},
        TokenView::NonTerminal(name) => {
            lemma_name_settles(grammar, name, context, depth, out);
        },
        TokenView::StickyNonTerminal(name) => {
            let mid = choose|mid: Outcome|
                name_yields(grammar, name, context, depth, mid) && out == #[trigger] kept(name, mid);
            lemma_name_settles(grammar, name, context, depth, mid);
        },
        TokenView::Binding(_) => {},
        TokenView::Expression(command, inner) => {
            let mid = choose|mid: Outcome|
                token_yields(grammar, *inner, context, depth, mid) && out == #[trigger] through(
                    command,
                    mid,
                );
            lemma_token_settles(grammar, *inner, context, depth, mid);
        },
        TokenView::Range(_, _) => {},
        TokenView::VariableAssignment(name, rule) => {
            if !context.bindings.contains_key(name) {
                let body = choose|body: Outcome|
                    rule_yields(grammar, rule, context, depth, body) && out == #[trigger] assigned(
                        name,
                        body,
                    );
                lemma_rule_settles(grammar, rule, context, depth, body);
            }
        },
    }
}

/// Evaluating a list of tokens closes every scope that it opens and loses no
/// tag, also where it ends in an error.
pub proof fn lemma_tokens_settle(
    grammar: Grammar,
    tokens: Seq<TokenView>,
    context: ContextView,
    depth: nat,
    out: Outcome,
)
    requires
        tokens_yield(grammar, tokens, context, depth, out),
    ensures
        settled(context, out.context),
    decreases depth, 3nat, tokens.len(),
{
    if tokens.len() > 0 {
        let (front, last) = choose|front: Outcome, last: Outcome|
            tokens_yield(grammar, tokens.drop_last(), context, depth, front) && (front.result is Ok
                ==> token_yields(grammar, tokens.last(), front.context, depth, last)) && out
                == #[trigger] sequel(front, last);
        lemma_tokens_settle(grammar, tokens.drop_last(), context, depth, front);
        if front.result is Ok {
            lemma_token_settles(grammar, tokens.last(), front.context, depth, last);
        }
    }
}

/// Whether every entry of `part` is an entry of `whole`.
pub open spec fn submap(part: Map<Seq<char>, Seq<char>>, whole: Map<Seq<char>, Seq<char>>) -> bool {
    forall|key: Seq<char>| #[trigger]
        part.contains_key(key) ==> whole.contains_key(key) && part[key] == whole[key]
}

/// The names noted in the innermost scope.
pub open spec fn noted(context: ContextView) -> Set<Seq<char>> {
    context.frames.last().to_set()
}

/// The bindings that are left when the innermost scope is closed.
pub open spec fn unwound(context: ContextView) -> Map<Seq<char>, Seq<char>> {
    context.bindings.remove_keys(noted(context))
}

/// Whether an evaluation that started in `start`, inside a scope, and ended
/// in `end` has kept to that scope: the outer scopes are as they were, every
/// name noted before is still noted, and closing the scope leaves no binding
/// that closing it at the start would not have left.
pub open spec fn kept_to_scope(start: ContextView, end: ContextView) -> bool {
    &&& end.frames.len() == start.frames.len()
    &&& end.frames.drop_last() == start.frames.drop_last()
    &&& noted(start).subset_of(noted(end))
    &&& submap(unwound(end), unwound(start))
}

/// Binding a name inside a scope keeps to the scope.
pub proof fn lemma_bind_keeps_to_scope(context: ContextView, key: Seq<char>, value: Seq<char>)
    requires
        context.frames.len() > 0,
    ensures
        kept_to_scope(context, context.bind(key, value)),
        kept_to_scope(context, context.bind(key, value).unbind(key)),
{
    let bound = context.bind(key, value);
    assert(bound.frames.drop_last() =~= context.frames.drop_last());
    assert(bound.frames.last() == context.frames.last().push(key));
    assert(bound.frames.last()[context.frames.last().len() as int] == key);
    assert forall|k: Seq<char>| noted(context).contains(k) implies noted(bound).contains(k) by {
        let j = choose|j: int| 0 <= j < context.frames.last().len() && context.frames.last()[j] == k;
        assert(bound.frames.last()[j] == k);
    }
    assert(noted(bound).contains(key));
}

/// Keeping to the scope carries over from one step to the next.
pub proof fn lemma_kept_to_scope_twice(start: ContextView, mid: ContextView, end: ContextView)
    requires
        kept_to_scope(start, mid),
        kept_to_scope(mid, end),
    ensures
        kept_to_scope(start, end),
{
    assert forall|key: Seq<char>| #[trigger] unwound(end).contains_key(key) implies unwound(
        start,
    ).contains_key(key) && unwound(end)[key] == unwound(start)[key] by {
        assert(unwound(mid).contains_key(key));
    }
}

/// Where the frames stay and the bindings only shrink, the evaluation has
/// kept to the scope.
pub proof fn lemma_shrinking_keeps_to_scope(start: ContextView, end: ContextView)
    requires
        end.frames == start.frames,
        submap(end.bindings, start.bindings),
    ensures
        kept_to_scope(start, end),
{
    assert forall|key: Seq<char>| #[trigger] unwound(end).contains_key(key) implies unwound(
        start,
    ).contains_key(key) && unwound(end)[key] == unwound(start)[key] by {
        assert(end.bindings.contains_key(key));
    }
}

/// Expanding a chosen rule inside a scope keeps to that scope.
pub proof fn lemma_rule_keeps_to_scope(
    grammar: Grammar,
    name: Seq<char>,
    context: ContextView,
    depth: nat,
    out: Outcome,
)
    requires
        context.frames.len() > 0,
        rule_yields(grammar, name, context, depth, out),
    ensures
        kept_to_scope(context, out.context),
    decreases depth, 0nat, 0nat,
{
    if depth > 0 {
        match candidates(grammar, name, context.tags) {
            Err(_) => {},
            Ok(choices) => {
                let i = choose|i: int|
                    0 <= i < choices.len() && tokens_yield(
                        grammar,
                        (#[trigger] choices[i]).0.tokens,
                        context.merge(choices[i].1.tags),
                        (depth - 1) as nat,
                        out,
                    );
                lemma_tokens_keep_to_scope(
                    grammar,
                    choices[i].0.tokens,
                    context.merge(choices[i].1.tags),
                    (depth - 1) as nat,
                    out,
                );
            },
        }
    }
}

/// Bindings are scoped: when a name has been expanded, the scopes are as
/// they were, and every binding that is left was there before, with the same
/// value. What was bound during the expansion is gone.
pub proof fn lemma_name_is_scoped(
    grammar: Grammar,
    name: Seq<char>,
    context: ContextView,
    depth: nat,
    out: Outcome,
)
    requires
        name_yields(grammar, name, context, depth, out),
    ensures
        out.context.frames == context.frames,
        submap(out.context.bindings, context.bindings),
    decreases depth, 1nat, 0nat,
{
    let inner = context.descend();
    lemma_scope_restores(context);
    assert(inner.frames.drop_last() =~= context.frames);
    if !inner.bindings.contains_key(name) {
        let body = choose|body: Outcome|
            rule_yields(grammar, name, inner, depth, body) && out == #[trigger] closed_scope(body);
        lemma_rule_keeps_to_scope(grammar, name, inner, depth, body);
        assert(noted(inner) =~= Set::<Seq<char>>::empty());
        assert(unwound(inner) =~= context.bindings);
        assert(out.context.bindings == unwound(body.context));
        assert forall|key: Seq<char>| #[trigger]
            out.context.bindings.contains_key(key) implies context.bindings.contains_key(key)
            && out.context.bindings[key] == context.bindings[key] by {
            assert(unwound(body.context).contains_key(key));
        }
    }
}

/// Evaluating a token inside a scope keeps to that scope.
pub proof fn lemma_token_keeps_to_scope(
    grammar: Grammar,
    token: TokenView,
    context: ContextView,
    depth: nat,
    out: Outcome,
)
    requires
        context.frames.len() > 0,
        token_yields(grammar, token, context, depth, out),
    ensures
        kept_to_scope(context, out.context),
    decreases depth, 2nat, crate::semantics::height(token),
{
    match token {
        TokenView::Literal(_) => {},
        TokenView::NonTerminal(name) => {
            lemma_name_is_scoped(grammar, name, context, depth, out);
            lemma_shrinking_keeps_to_scope(context, out.context);
        },
        TokenView::StickyNonTerminal(name) => {
            let mid = choose|mid: Outcome|
                name_yields(grammar, name, context, depth, mid) && out == #[trigger] kept(name, mid);
            lemma_name_is_scoped(grammar, name, context, depth, mid);
            lemma_shrinking_keeps_to_scope(context, mid.context);
            match mid.result {
                Ok(text) => {
                    lemma_bind_keeps_to_scope(mid.context, name, text);
                    lemma_kept_to_scope_twice(context, mid.context, out.context);
                },
                Err(_) => {},
            }
        },
        TokenView::Binding(_) => {},
        TokenView::Expression(command, inner) => {
            let mid = choose|mid: Outcome|
                token_yields(grammar, *inner, context, depth, mid) && out == #[trigger] through(
                    command,
                    mid,
                );
            lemma_token_keeps_to_scope(grammar, *inner, context, depth, mid);
        },
        TokenView::Range(_, _) => {},
        TokenView::VariableAssignment(name, rule) => {
            if !context.bindings.contains_key(name) {
                let body = choose|body: Outcome|
                    rule_yields(grammar, rule, context, depth, body) && out == #[trigger] assigned(
                        name,
                        body,
                    );
                lemma_rule_keeps_to_scope(grammar, rule, context, depth, body);
                match body.result {
                    Ok(text) => {
                        lemma_bind_keeps_to_scope(body.context, name, text);
                        lemma_kept_to_scope_twice(context, body.context, out.context);
                    },
                    Err(_) => {},
                }
            }
        },
    }
}

/// Evaluating a list of tokens inside a scope keeps to that scope.
pub proof fn lemma_tokens_keep_to_scope(
    grammar: Grammar,
    tokens: Seq<TokenView>,
    context: ContextView,
    depth: nat,
    out: Outcome,
)
    requires
        context.frames.len() > 0,
        tokens_yield(grammar, tokens, context, depth, out),
    ensures
        kept_to_scope(context, out.context),
    decreases depth, 3nat, tokens.len(),
{
    if tokens.len() > 0 {
        let (front, last) = choose|front: Outcome, last: Outcome|
            tokens_yield(grammar, tokens.drop_last(), context, depth, front) && (front.result is Ok
                ==> token_yields(grammar, tokens.last(), front.context, depth, last)) && out
                == #[trigger] sequel(front, last);
        lemma_tokens_keep_to_scope(grammar, tokens.drop_last(), context, depth, front);
        if front.result is Ok {
            lemma_token_keeps_to_scope(grammar, tokens.last(), front.context, depth, last);
            lemma_kept_to_scope_twice(context, front.context, out.context);
        }
    }
}

} // verus!
