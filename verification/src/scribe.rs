//! The scribe: a grammar, and the engine that expands it into text.

use vstd::prelude::*;
use vstd::string::*;
use crate::cognate::{views_of_groups, Cognate, CognateView};
use crate::context::{Context, ContextView};
use crate::dict::StrMap;
use crate::error::{AnnalsError, ErrorView};
use crate::group::{group_views, Group, GroupListIter, GroupView};
use crate::outside::{lower_case, random_between, title_case, upper_case_char};
use crate::parse::{parse_rule, token_views, Command, Token, TokenView};
use crate::rule::Rule;
use crate::semantics::{
    accepted, assigned, candidates, closed_scope, height, is_vowel, kept, name_yields,
    rule_yields, sequel, through, token_yields, tokens_yield, transformed, Grammar, Outcome,
};
use crate::text::{decimal, decimal_string};

verus! {

/// How deep choices may nest where nothing else is asked for.
pub const DEFAULT_MAX_DEPTH: usize = 128;

/// A grammar and its engine. The grammar is read, never changed, while text
/// is generated.
#[derive(Debug)]
pub struct Scribe {
    cognates: StrMap<Cognate>,
    max_depth: usize,
}

impl View for Scribe {
    type V = Grammar;

    closed spec fn view(&self) -> Grammar {
        self.cognates@
    }
}

/// Tests a character for a vowel.
pub fn vowel(c: char) -> (b: bool)
    ensures
        b == is_vowel(c),
{
    c == 'a' || c == 'e' || c == 'i' || c == 'o' || c == 'u' || c == 'A' || c == 'E' || c == 'I'
        || c == 'O' || c == 'U'
}

/// Applies a command to a text.
pub fn apply(command: Command, text: &str) -> (r: String)
    ensures
        r@ == transformed(command, text@),
{
    let n = text.unicode_len();
    if n == 0 {
        return String::new();
    }
    match command {
        Command::Capitalize => {
            let mut r = upper_case_char(text.get_char(0));
            r.append(text.substring_char(1, n));
            proof {
                assert(text@.subrange(1, n as int) == text@.skip(1));
            }
            r
        },
        Command::Lowercase => lower_case(text),
        Command::Titlecase => title_case(text),
        Command::IndefiniteArticle => {
            let mut r = if vowel(text.get_char(0)) {
                String::from_str("an ")
            } else {
                String::from_str("a ")
            };
            r.append(text);
            r
        },
    }
}

impl Default for Scribe {
    fn default() -> (s: Self)
        ensures
            s@ == Map::<Seq<char>, CognateView>::empty(),
            s.depth_limit() == DEFAULT_MAX_DEPTH,
    {
        Scribe::new()
    }
}

impl Scribe {
    /// How deep choices may nest in this scribe.
    pub closed spec fn depth_limit(&self) -> usize {
        self.max_depth
    }

    /// A scribe without cognates.
    pub fn new() -> (s: Self)
        ensures
            s@ == Map::<Seq<char>, CognateView>::empty(),
            s.names() == Seq::<Seq<char>>::empty(),
            s.depth_limit() == DEFAULT_MAX_DEPTH,
    {
        Scribe { cognates: StrMap::new(), max_depth: DEFAULT_MAX_DEPTH }
    }

    /// How deep choices may nest: a generation that would nest deeper fails.
    pub fn max_depth(&self) -> (n: usize)
        ensures
            n == self.depth_limit(),
    {
        self.max_depth
    }

    /// Sets how deep choices may nest.
    pub fn set_max_depth(&mut self, depth: usize)
        ensures
            final(self)@ == old(self)@,
            final(self).names() == old(self).names(),
            final(self).depth_limit() == depth,
    {
        self.max_depth = depth;
    }

    /// The cognate with the name `name`.
    pub fn get(&self, name: &str) -> (r: Option<&Cognate>)
        ensures
            match r {
                Some(cognate) => self@.contains_key(name@) && cognate@ == self@[name@],
                None => !self@.contains_key(name@),
            },
    {
        self.cognates.get(name)
    }

    /// The cognate with the name `name`, for changing it. Where there is
    /// none, an empty one is made first.
    pub fn cognate(&mut self, name: &str) -> (r: &mut Cognate)
        ensures
            final(self).depth_limit() == old(self).depth_limit(),
            r@ == if old(self)@.contains_key(name@) {
                old(self)@[name@]
            } else {
                CognateView { name: name@, groups: Seq::<GroupView>::empty() }
            },
            final(self)@ == old(self)@.insert(name@, final(r)@),
            final(self).names() == if old(self)@.contains_key(name@) {
                old(self).names()
            } else {
                old(self).names().push(name@)
            },
    {
        if !self.cognates.contains_key(name) {
            self.cognates.insert(name.to_owned(), Cognate::new(name));
        }
        proof {
            let m = self.cognates@;
            assert forall|v: CognateView| #[trigger] m.insert(name@, v) == old(self)@.insert(name@, v) by {
                assert(m.insert(name@, v) =~= old(self)@.insert(name@, v));
            }
        }
        match self.cognates.get_mut(name) {
            Some(cognate) => cognate,
            None => vstd::pervasive::unreached(),
        }
    }

    /// Puts `cognate` into the grammar under its name. A cognate that had
    /// the name before is replaced.
    pub fn insert_cognate(&mut self, cognate: Cognate)
        ensures
            final(self).depth_limit() == old(self).depth_limit(),
            final(self)@ == old(self)@.insert(cognate@.name, cognate@),
            final(self).names() == if old(self)@.contains_key(cognate@.name) {
                old(self).names()
            } else {
                old(self).names().push(cognate@.name)
            },
    {
        let name = cognate.name().to_owned();
        self.cognates.insert(name, cognate);
    }

    /// An iterator over the cognates, in the order in which their names were
    /// first used. Every cognate of the grammar comes once.
    pub fn iter(&self) -> (r: std::slice::Iter<'_, Cognate>)
        ensures
            vstd::std_specs::iter::IteratorSpec::remaining(&r) == self.cognate_seq().as_ref(),
            self.cognate_seq().len() == self.names().len(),
            self.names().no_duplicates(),
            forall|name: Seq<char>| self@.contains_key(name) <==> self.names().contains(name),
            forall|i: int|
                0 <= i < self.names().len() ==> self@.contains_key(#[trigger] self.names()[i])
                    && self.cognate_seq()[i]@ == self@[self.names()[i]],
    {
        broadcast use vstd::std_specs::slice::axiom_spec_slice_iter;

        self.cognates.values().iter()
    }

    /// The names under which the cognates are stored, in the order in which
    /// they were first used.
    pub closed spec fn names(&self) -> Seq<Seq<char>> {
        self.cognates.keys()
    }

    /// The cognates, in the order in which their names were first used.
    pub closed spec fn cognate_seq(&self) -> Seq<Cognate> {
        self.cognates.value_seq()
    }
}

/// A result of the engine and a context as an outcome.
pub open spec fn outcome(r: Result<String, AnnalsError>, context: ContextView) -> Outcome {
    Outcome {
        result: match r {
            Ok(text) => Ok(text@),
            Err(e) => Err(e@),
        },
        context,
    }
}

/// The accepted groups among the first `k + 1` are those among the first
/// `k`, and the group at `k` where it is accepted.
pub proof fn lemma_accepted_take(groups: Seq<GroupView>, tags: Map<Seq<char>, Seq<char>>, k: int)
    requires
        0 <= k < groups.len(),
    ensures
        accepted(groups.take(k + 1), tags) == if crate::dict::compatible(tags, groups[k].tags) {
            accepted(groups.take(k), tags).push(groups[k])
        } else {
            accepted(groups.take(k), tags)
        },
{
    assert(groups.take(k + 1).drop_last() == groups.take(k));
}

impl Scribe {
    /// The rules that may be chosen for `name` in `context`, ready to be
    /// read, or the reason why none can be chosen.
    pub fn choices<'a>(&'a self, name: &str, context: &Context) -> (r: Result<
        GroupListIter<'a>,
        AnnalsError,
    >)
        ensures
            match candidates(self@, name@, context@.tags) {
                Err(e) => r matches Err(x) && x@ == e,
                Ok(rules) => r matches Ok(it) && it.pairs() == rules && it.position() == 0,
            },
    {
        let cognate = match self.get(name) {
            Some(cognate) => cognate,
            None => {
                return Err(AnnalsError::UnknownCognate { name: name.to_owned() });
            },
        };
        if cognate.is_empty() {
            return Err(AnnalsError::EmptyCognate { name: name.to_owned() });
        }
        let groups = cognate.groups();
        let ghost views = cognate@.groups;
        let ghost tags = context@.tags;
        let mut fitting: Vec<&'a Group> = Vec::new();
        let mut i: usize = 0;
        proof {
            assert(views.take(0) =~= Seq::<GroupView>::empty());
            assert(group_views(fitting@) =~= Seq::<GroupView>::empty());
        }
        while i < groups.len()
            invariant
                i <= groups@.len(),
                views == views_of_groups(groups@),
                tags == context@.tags,
                group_views(fitting@) == accepted(views.take(i as int), tags),
            decreases groups@.len() - i,
        {
            let ghost before = group_views(fitting@);
            proof {
                lemma_accepted_take(views, tags, i as int);
            }
            if context.accept_strict(&groups[i]) {
                fitting.push(&groups[i]);
                proof {
                    assert(group_views(fitting@) =~= before.push(views[i as int]));
                }
            }
            i += 1;
        }
        proof {
            assert(views.take(groups@.len() as int) == views);
        }
        if fitting.len() == 0 {
            return Err(
                AnnalsError::NoSuitableGroups {
                    name: name.to_owned(),
                    tags: context.tags().clone(),
                },
            );
        }
        let it = GroupListIter::new(fitting);
        if it.size() == 0 {
            return Err(AnnalsError::EmptyCognate { name: name.to_owned() });
        }
        Ok(it)
    }

    /// Reads the rule at `index` among those not yet read of `choices` and
    /// sets the tags of its group in `context`. Where there is no such rule,
    /// the context stays as it is.
    pub fn pick<'a>(choices: &mut GroupListIter<'a>, index: usize, context: &mut Context) -> (r:
        Option<&'a Rule>)
        ensures
            final(choices).pairs() == old(choices).pairs(),
            match r {
                Some(rule) => index < old(choices).remaining().len() && rule@ == old(
                    choices,
                ).remaining()[index as int].0 && final(context)@ == old(context)@.merge(
                    old(choices).remaining()[index as int].1.tags,
                ),
                None => index >= old(choices).remaining().len() && final(context)@ == old(
                    context,
                )@,
            },
    {
        match choices.nth(index) {
            Some((rule, group)) => {
                context.merge_from_group(group);
                Some(rule)
            },
            None => None,
        }
    }

    /// Chooses at random one of the rules that `name` offers in `context`,
    /// each rule being as likely as any other, and sets the tags of its group
    /// in `context`. Where no rule can be chosen, the context stays as it is.
    pub fn select_rule(&self, name: &str, context: &mut Context) -> (r: Result<&Rule, AnnalsError>)
        ensures
            match candidates(self@, name@, old(context)@.tags) {
                Err(e) => r matches Err(x) && x@ == e && final(context)@ == old(context)@,
                Ok(rules) => r matches Ok(rule) && exists|i: int|
                    0 <= i < rules.len() && rule@ == (#[trigger] rules[i]).0 && final(context)@
                        == old(context)@.merge(rules[i].1.tags),
            },
    {
        let mut choices = match self.choices(name, context) {
            Ok(choices) => choices,
            Err(e) => {
                return Err(e);
            },
        };
        let size = choices.size();
        let index = random_between(0, size);
        let ghost rules = choices.pairs();
        proof {
            assert(choices.remaining() =~= rules);
        }
        match Self::pick(&mut choices, index, context) {
            Some(rule) => {
                proof {
                    assert(rule@ == rules[index as int].0);
                }
                Ok(rule)
            },
            None => Err(AnnalsError::EmptyCognate { name: name.to_owned() }),
        }
    }
}

/// Once the first `k` tokens have ended in an error, all the tokens end in
/// that error.
pub proof fn lemma_error_ends(
    grammar: Grammar,
    tokens: Seq<TokenView>,
    context: ContextView,
    depth: nat,
    k: int,
    out: Outcome,
)
    requires
        0 <= k <= tokens.len(),
        out.result is Err,
        tokens_yield(grammar, tokens.take(k), context, depth, out),
    ensures
        tokens_yield(grammar, tokens, context, depth, out),
    decreases tokens.len() - k,
{
    if k < tokens.len() {
        let longer = tokens.take(k + 1);
        assert(longer.drop_last() == tokens.take(k));
        assert(out == sequel(out, out));
        assert(tokens_yield(grammar, longer, context, depth, out));
        lemma_error_ends(grammar, tokens, context, depth, k + 1, out);
    } else {
        assert(tokens.take(k) == tokens);
    }
}

impl Scribe {
    /// Chooses a rule for `name` and expands it. `depth` is how many more
    /// choices may nest: with none left, the expansion fails.
    pub fn expand_rule(&self, name: &str, context: &mut Context, depth: usize) -> (r: Result<
        String,
        AnnalsError,
    >)
        ensures
            rule_yields(self@, name@, old(context)@, depth as nat, outcome(r, final(context)@)),
        decreases depth, 0nat, 0nat,
    {
        if depth == 0 {
            return Err(AnnalsError::DepthExceeded { name: name.to_owned() });
        }
        let rule = match self.select_rule(name, context) {
            Ok(rule) => rule,
            Err(e) => {
                return Err(e);
            },
        };
        let ghost start = context@;
        let r = self.expand_tokens(rule.tokens(), context, depth - 1);
        proof {
            let rules = candidates(self@, name@, old(context)@.tags)->Ok_0;
            let i = choose|i: int|
                0 <= i < rules.len() && rule@ == (#[trigger] rules[i]).0 && start == old(
                    context,
                )@.merge(rules[i].1.tags);
            assert(tokens_yield(
                self@,
                rules[i].0.tokens,
                old(context)@.merge(rules[i].1.tags),
                (depth - 1) as nat,
                outcome(r, context@),
            ));
        }
        r
    }

    /// Expands the name `name` in a scope of its own: the bound value where
    /// the name is bound, otherwise a rule chosen for it. The scope is closed
    /// again in either case, and after an error too.
    pub fn expand_name(&self, name: &str, context: &mut Context, depth: usize) -> (r: Result<
        String,
        AnnalsError,
    >)
        ensures
            name_yields(self@, name@, old(context)@, depth as nat, outcome(r, final(context)@)),
        decreases depth, 1nat, 0nat,
    {
        context.descend();
        match context.get_binding(name) {
            Some(value) => {
                context.ascend();
                Ok(value)
            },
            None => {
                let r = self.expand_rule(name, context, depth);
                let ghost body = outcome(r, context@);
                context.ascend();
                proof {
                    assert(outcome(r, context@) == closed_scope(body));
                }
                r
            },
        }
    }

    /// Evaluates one token.
    pub fn expand_token(&self, token: &Token, context: &mut Context, depth: usize) -> (r: Result<
        String,
        AnnalsError,
    >)
        ensures
            token_yields(self@, token@, old(context)@, depth as nat, outcome(r, final(context)@)),
        decreases depth, 2nat, height(token@),
    {
        match token {
            Token::Literal(text) => Ok(text.clone()),
            Token::NonTerminal(name) => self.expand_name(name.as_str(), context, depth),
            Token::StickyNonTerminal(name) => {
                let r = self.expand_name(name.as_str(), context, depth);
                let ghost mid = outcome(r, context@);
                let out = match r {
                    Ok(text) => {
                        context.bind(name.as_str(), text.as_str());
                        Ok(text)
                    },
                    Err(e) => Err(e),
                };
                proof {
                    assert(outcome(out, context@) == kept(name@, mid));
                }
                out
            },
            Token::Binding(name) => match context.get_binding(name.as_str()) {
                Some(value) => Ok(value),
                None => Err(AnnalsError::UnboundVariable { name: name.clone() }),
            },
            Token::Expression(command, inner) => {
                let r = self.expand_token(inner, context, depth);
                let ghost mid = outcome(r, context@);
                let out = match r {
                    Ok(text) => Ok(apply(*command, text.as_str())),
                    Err(e) => Err(e),
                };
                proof {
                    assert(outcome(out, context@) == through(*command, mid));
                }
                out
            },
            Token::Range(lower, upper) => {
                if *lower < *upper {
                    let n = random_between(*lower, *upper);
                    let text = decimal_string(n);
                    proof {
                        let k = n as int;
                        assert(text@ == decimal(k as nat));
                    }
                    Ok(text)
                } else {
                    Err(AnnalsError::EmptyRange { lower: *lower, upper: *upper })
                }
            },
            Token::VariableAssignment(name, rule) => {
                if context.get_binding(name.as_str()).is_some() {
                    return Ok(String::new());
                }
                let r = self.expand_rule(rule.as_str(), context, depth);
                let ghost body = outcome(r, context@);
                let out = match r {
                    Ok(value) => {
                        context.bind(name.as_str(), value.as_str());
                        let read = match context.get_binding(name.as_str()) {
                            Some(bound) => Ok(bound),
                            None => Err(AnnalsError::UnboundVariable { name: name.clone() }),
                        };
                        context.unbind(name.as_str());
                        read
                    },
                    Err(e) => Err(e),
                };
                proof {
                    assert(outcome(out, context@) == assigned(name@, body));
                }
                out
            },
        }
    }

    /// Evaluates the tokens one after the other and joins their texts. The
    /// first error ends the evaluation.
    pub fn expand_tokens(&self, tokens: &[Token], context: &mut Context, depth: usize) -> (r:
        Result<String, AnnalsError>)
        ensures
            tokens_yield(
                self@,
                token_views(tokens@),
                old(context)@,
                depth as nat,
                outcome(r, final(context)@),
            ),
        decreases depth, 3nat, tokens@.len(),
    {
        let ghost views = token_views(tokens@);
        let mut text = String::new();
        let mut i: usize = 0;
        proof {
            assert(views.take(0) =~= Seq::<TokenView>::empty());
        }
        while i < tokens.len()
            invariant
                i <= tokens@.len(),
                views == token_views(tokens@),
                tokens_yield(
                    self@,
                    views.take(i as int),
                    old(context)@,
                    depth as nat,
                    Outcome { result: Ok(text@), context: context@ },
                ),
            decreases tokens@.len() - i,
        {
            let ghost front = Outcome { result: Ok(text@), context: context@ };
            let r = self.expand_token(&tokens[i], context, depth);
            let ghost last = outcome(r, context@);
            proof {
                assert(views.take(i + 1).drop_last() == views.take(i as int));
                assert(views.take(i + 1).last() == tokens@[i as int]@);
                assert(token_yields(self@, views.take(i + 1).last(), front.context, depth as nat, last));
            }
            match r {
                Ok(piece) => {
                    text.append(piece.as_str());
                    proof {
                        let now = Outcome { result: Ok(text@), context: context@ };
                        assert(now == sequel(front, last));
                        assert(tokens_yield(self@, views.take(i + 1), old(context)@, depth as nat, now));
                    }
                },
                Err(e) => {
                    proof {
                        let out = Outcome { result: Err(e@), context: context@ };
                        assert(out == sequel(front, last));
                        assert(tokens_yield(self@, views.take(i + 1), old(context)@, depth as nat, out));
                        lemma_error_ends(self@, views, old(context)@, depth as nat, i + 1, out);
                    }
                    return Err(e);
                },
            }
            i += 1;
        }
        proof {
            assert(views.take(tokens@.len() as int) == views);
        }
        Ok(text)
    }
}

impl Scribe {
    /// Evaluates one token with the depth that this scribe allows.
    pub fn handle_token(&self, token: &Token, context: &mut Context) -> (r: Result<
        String,
        AnnalsError,
    >)
        ensures
            token_yields(
                self@,
                token@,
                old(context)@,
                self.depth_limit() as nat,
                outcome(r, final(context)@),
            ),
    {
        self.expand_token(token, context, self.max_depth)
    }

    /// Generates a text from the cognate `cognate`, in a fresh context.
    pub fn gen(&self, cognate: &str) -> (r: Result<String, AnnalsError>)
        ensures
            exists|end: ContextView| #[trigger]
                rule_yields(
                    self@,
                    cognate@,
                    ContextView::fresh(),
                    self.depth_limit() as nat,
                    outcome(r, end),
                ),
    {
        let mut context = Context::default();
        let r = self.expand_rule(cognate, &mut context, self.max_depth);
        proof {
            assert(rule_yields(
                self@,
                cognate@,
                ContextView::fresh(),
                self.depth_limit() as nat,
                outcome(r, context@),
            ));
        }
        r
    }

    /// Generates a text from the cognate `cognate`, starting in `context`.
    pub fn gen_with(&self, cognate: &str, context: Context) -> (r: Result<String, AnnalsError>)
        ensures
            exists|end: ContextView| #[trigger]
                rule_yields(self@, cognate@, context@, self.depth_limit() as nat, outcome(r, end)),
    {
        let mut context = context;
        let ghost start = context@;
        let r = self.expand_rule(cognate, &mut context, self.max_depth);
        proof {
            assert(rule_yields(
                self@,
                cognate@,
                start,
                self.depth_limit() as nat,
                outcome(r, context@),
            ));
        }
        r
    }

    /// Parses `rule` and generates a text from it, in a fresh context. A
    /// rule that does not parse gives the error of the parser.
    pub fn expand(&self, rule: &str) -> (r: Result<String, AnnalsError>)
        ensures
            match parse_rule(rule@) {
                Err(err) => r matches Err(e) && e@ == (ErrorView::InvalidRule { err, expr: rule@ }),
                Ok(tokens) => exists|end: ContextView| #[trigger]
                    tokens_yield(
                        self@,
                        tokens,
                        ContextView::fresh(),
                        self.depth_limit() as nat,
                        outcome(r, end),
                    ),
            },
    {
        self.expand_with(rule, Context::default())
    }

    /// Parses `rule` and generates a text from it, starting in `context`. A
    /// rule that does not parse gives the error of the parser.
    pub fn expand_with(&self, rule: &str, context: Context) -> (r: Result<String, AnnalsError>)
        ensures
            match parse_rule(rule@) {
                Err(err) => r matches Err(e) && e@ == (ErrorView::InvalidRule { err, expr: rule@ }),
                Ok(tokens) => exists|end: ContextView| #[trigger]
                    tokens_yield(self@, tokens, context@, self.depth_limit() as nat, outcome(r, end)),
            },
    {
        let new_rule = match Rule::new(rule) {
            Ok(new_rule) => new_rule,
            Err(e) => {
                return Err(e);
            },
        };
        let mut context = context;
        let ghost start = context@;
        let r = self.expand_tokens(new_rule.tokens(), &mut context, self.max_depth);
        proof {
            assert(tokens_yield(
                self@,
                parse_rule(rule@)->Ok_0,
                start,
                self.depth_limit() as nat,
                outcome(r, context@),
            ));
        }
        r
    }
}

} // verus!
