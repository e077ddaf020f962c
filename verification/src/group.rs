//! A group: rules that share a set of tags.

use vstd::prelude::*;
use crate::dict::StrMap;
use crate::error::{AnnalsError, ErrorView};
use crate::parse::parse_rule;
use crate::rule::{Rule, RuleView};

verus! {

/// A set of rules under common tags. The tags decide in which contexts the
/// rules may be chosen.
#[derive(Debug)]
pub struct Group {
    pub tags: StrMap<String>,
    pub rules: Vec<Rule>,
}

/// A [`Group`] as a map and a sequence.
pub struct GroupView {
    pub tags: Map<Seq<char>, Seq<char>>,
    pub rules: Seq<RuleView>,
}

/// The views of a list of rules.
pub open spec fn rule_views(rules: Seq<Rule>) -> Seq<RuleView> {
    Seq::new(rules.len(), |i: int| rules[i]@)
}

/// The texts of a list of string slices.
pub open spec fn str_texts(strings: Seq<&str>) -> Seq<Seq<char>> {
    Seq::new(strings.len(), |i: int| strings[i]@)
}

impl View for Group {
    type V = GroupView;

    open spec fn view(&self) -> GroupView {
        GroupView { tags: self.tags@, rules: rule_views(self.rules@) }
    }
}

/// The rules that a list of texts parses to, or the error of the first text
/// that does not parse.
pub open spec fn parse_all(texts: Seq<Seq<char>>) -> Result<Seq<RuleView>, ErrorView>
    decreases texts.len(),
{
    if texts.len() == 0 {
        Ok(Seq::<RuleView>::empty())
    } else {
        match parse_all(texts.drop_last()) {
            Err(e) => Err(e),
            Ok(front) => match parse_rule(texts.last()) {
                Ok(tokens) => Ok(front.push(RuleView { literal: texts.last(), tokens })),
                Err(err) => Err(ErrorView::InvalidRule { err, expr: texts.last() }),
            },
        }
    }
}

/// An error among the first `k` texts is the error of every longer list.
pub proof fn lemma_parse_all_error(texts: Seq<Seq<char>>, k: int, n: int)
    requires
        0 <= k <= n <= texts.len(),
        parse_all(texts.take(k)) is Err,
    ensures
        parse_all(texts.take(n)) == parse_all(texts.take(k)),
    decreases n - k,
{
    if k < n {
        lemma_parse_all_error(texts, k, n - 1);
        assert(texts.take(n).drop_last() == texts.take(n - 1));
    }
}

/// Parses every text of `rules`, in order, up to the first that fails.
fn parse_rules(rules: &[&str]) -> (r: Result<Vec<Rule>, AnnalsError>)
    ensures
        match r {
            Ok(parsed) => parse_all(str_texts(rules@)) == Ok::<Seq<RuleView>, ErrorView>(
                rule_views(parsed@),
            ),
            Err(e) => parse_all(str_texts(rules@)) == Err::<Seq<RuleView>, ErrorView>(e@),
        },
{
    let ghost texts = str_texts(rules@);
    let mut parsed: Vec<Rule> = Vec::new();
    let mut i: usize = 0;
    assert(rule_views(parsed@) =~= Seq::<RuleView>::empty());
    while i < rules.len()
        invariant
            i <= rules.len(),
            texts == str_texts(rules@),
            parse_all(texts.take(i as int)) == Ok::<Seq<RuleView>, ErrorView>(rule_views(parsed@)),
        decreases rules.len() - i,
    {
        let ghost before = rule_views(parsed@);
        proof {
            assert(texts.take(i + 1).drop_last() == texts.take(i as int));
            assert(texts.take(i + 1).last() == rules@[i as int]@);
        }
        match Rule::new(rules[i]) {
            Ok(rule) => {
                parsed.push(rule);
                proof {
                    assert(rule_views(parsed@) =~= before.push(rule@));
                }
            },
            Err(e) => {
                proof {
                    lemma_parse_all_error(texts, i + 1, texts.len() as int);
                    assert(texts.take(texts.len() as int) == texts);
                }
                return Err(e);
            },
        }
        i += 1;
    }
    proof {
        assert(texts.take(texts.len() as int) == texts);
    }
    Ok(parsed)
}

impl Default for Group {
    fn default() -> (g: Self)
        ensures
            g@.tags == Map::<Seq<char>, Seq<char>>::empty(),
            g@.rules == Seq::<RuleView>::empty(),
    {
        Group::new()
    }
}

impl Group {
    /// A group without tags and without rules.
    pub fn new() -> (g: Self)
        ensures
            g@.tags == Map::<Seq<char>, Seq<char>>::empty(),
            g@.rules == Seq::<RuleView>::empty(),
    {
        let g = Group { tags: StrMap::new(), rules: Vec::new() };
        assert(rule_views(g.rules@) =~= Seq::<RuleView>::empty());
        g
    }

    /// The number of rules.
    pub fn len(&self) -> (n: usize)
        ensures
            n == self@.rules.len(),
    {
        self.rules.len()
    }

    /// Whether the group has no rule.
    pub fn is_empty(&self) -> (b: bool)
        ensures
            b == (self@.rules.len() == 0),
    {
        self.rules.len() == 0
    }

    /// A group without tags whose rules are the texts of `rules`, in order.
    /// Where a text does not parse, no group is made, and the error is that
    /// of the first such text.
    pub fn from_rules(rules: &[&str]) -> (r: Result<Self, AnnalsError>)
        ensures
            match r {
                Ok(g) => parse_all(str_texts(rules@)) == Ok::<Seq<RuleView>, ErrorView>(g@.rules)
                    && g@.tags == Map::<Seq<char>, Seq<char>>::empty(),
                Err(e) => parse_all(str_texts(rules@)) == Err::<Seq<RuleView>, ErrorView>(e@),
            },
    {
        match parse_rules(rules) {
            Ok(parsed) => Ok(Group { tags: StrMap::new(), rules: parsed }),
            Err(e) => Err(e),
        }
    }

    /// Adds the rule with the text `expr` at the end. Where the text does
    /// not parse, the group stays as it is.
    pub fn add_rule(&mut self, expr: &str) -> (r: Result<(), AnnalsError>)
        ensures
            final(self)@.tags == old(self)@.tags,
            match r {
                Ok(_) => parse_rule(expr@) is Ok && final(self)@.rules == old(self)@.rules.push(
                    RuleView { literal: expr@, tokens: parse_rule(expr@)->Ok_0 },
                ),
                Err(e) => parse_rule(expr@) is Err && e@ == (ErrorView::InvalidRule {
                    err: parse_rule(expr@)->Err_0,
                    expr: expr@,
                }) && final(self)@.rules == old(self)@.rules,
            },
    {
        match Rule::new(expr) {
            Ok(rule) => {
                self.rules.push(rule);
                proof {
                    assert(rule_views(self.rules@) =~= rule_views(old(self).rules@).push(rule@));
                }
                Ok(())
            },
            Err(e) => Err(e),
        }
    }

    /// Adds the rules with the texts of `rules` at the end, in order. Where
    /// a text does not parse, the group stays as it is, and the error is
    /// that of the first such text.
    pub fn add_rules(&mut self, rules: &[&str]) -> (r: Result<(), AnnalsError>)
        ensures
            final(self)@.tags == old(self)@.tags,
            match r {
                Ok(_) => parse_all(str_texts(rules@)) is Ok && final(self)@.rules == old(
                    self,
                )@.rules + parse_all(str_texts(rules@))->Ok_0,
                Err(e) => parse_all(str_texts(rules@)) == Err::<Seq<RuleView>, ErrorView>(e@)
                    && final(self)@.rules == old(self)@.rules,
            },
    {
        match parse_rules(rules) {
            Ok(mut parsed) => {
                let ghost added = rule_views(parsed@);
                self.rules.append(&mut parsed);
                proof {
                    assert(rule_views(self.rules@) =~= rule_views(old(self).rules@) + added);
                }
                Ok(())
            },
            Err(e) => Err(e),
        }
    }

    /// Sets the tag `key` to `val`.
    pub fn set_tag(&mut self, key: &str, val: &str)
        ensures
            final(self)@.tags == old(self)@.tags.insert(key@, val@),
            final(self)@.rules == old(self)@.rules,
    {
        self.tags.insert(key.to_owned(), val.to_owned());
    }
}

/// The views of a list of groups.
pub open spec fn group_views(groups: Seq<&Group>) -> Seq<GroupView> {
    Seq::new(groups.len(), |i: int| groups[i]@)
}

/// The rules of one group, each with the group.
pub open spec fn block(group: GroupView) -> Seq<(RuleView, GroupView)> {
    Seq::new(group.rules.len(), |i: int| (group.rules[i], group))
}

/// The rules of a list of groups, each with its group: first those of the
/// first group in their order, then those of the second, and so on.
pub open spec fn flatten(groups: Seq<GroupView>) -> Seq<(RuleView, GroupView)>
    decreases groups.len(),
{
    if groups.len() == 0 {
        Seq::<(RuleView, GroupView)>::empty()
    } else {
        flatten(groups.drop_last()) + block(groups.last())
    }
}

/// The rules of the first `k + 1` groups are those of the first `k`,
/// followed by those of the group at `k`.
pub proof fn lemma_flatten_take(groups: Seq<GroupView>, k: int)
    requires
        0 <= k < groups.len(),
    ensures
        flatten(groups.take(k + 1)) == flatten(groups.take(k)) + block(groups[k]),
{
    assert(groups.take(k + 1).drop_last() == groups.take(k));
}

/// The rule at `r` of the group at `k` stands in the flat list behind the
/// rules of the groups before `k`.
pub proof fn lemma_flatten_index(groups: Seq<GroupView>, k: int, r: int)
    requires
        0 <= k < groups.len(),
        0 <= r < groups[k].rules.len(),
    ensures
        flatten(groups.take(k)).len() + r < flatten(groups).len(),
        flatten(groups)[flatten(groups.take(k)).len() + r] == (groups[k].rules[r], groups[k]),
    decreases groups.len(),
{
    let front = groups.drop_last();
    if k == groups.len() - 1 {
        assert(groups.take(k) == front);
    } else {
        lemma_flatten_index(front, k, r);
        assert(front.take(k) == groups.take(k));
    }
}

/// The first `k` groups hold at most as many rules as all the groups.
pub proof fn lemma_flatten_prefix_len(groups: Seq<GroupView>, k: int)
    requires
        0 <= k <= groups.len(),
    ensures
        flatten(groups.take(k)).len() <= flatten(groups).len(),
    decreases groups.len() - k,
{
    if k < groups.len() {
        lemma_flatten_take(groups, k);
        lemma_flatten_prefix_len(groups, k + 1);
    } else {
        assert(groups.take(k) == groups);
    }
}

/// The rules of several groups as one list, read from front to back.
#[derive(Debug)]
pub struct GroupListIter<'a> {
    groups: Vec<&'a Group>,
    group: usize,
    rule: usize,
    size: usize,
}

impl<'a> GroupListIter<'a> {
    #[verifier::type_invariant]
    spec fn well_formed(&self) -> bool {
        &&& self.group <= self.groups@.len()
        &&& self.group < self.groups@.len() ==> self.rule <= self.groups@[self.group as int]@.rules.len()
        &&& self.group == self.groups@.len() ==> self.rule == 0
        &&& self.size == if self.pairs().len() <= usize::MAX {
            self.pairs().len()
        } else {
            usize::MAX as nat
        }
    }

    /// Every rule of the groups, each with its group, in the order of the
    /// groups.
    pub closed spec fn pairs(&self) -> Seq<(RuleView, GroupView)> {
        flatten(group_views(self.groups@))
    }

    /// How many pairs have been read.
    pub closed spec fn position(&self) -> int {
        flatten(group_views(self.groups@).take(self.group as int)).len() + self.rule
    }

    /// The pairs that have not been read.
    pub open spec fn remaining(&self) -> Seq<(RuleView, GroupView)> {
        self.pairs().skip(self.position())
    }

    /// The position lies inside the list of pairs, or at its end.
    proof fn lemma_position_bound(&self)
        requires
            self.well_formed(),
        ensures
            0 <= self.position() <= self.pairs().len(),
    {
        let views = group_views(self.groups@);
        if self.group < self.groups@.len() {
            lemma_flatten_take(views, self.group as int);
            lemma_flatten_prefix_len(views, self.group + 1);
        } else {
            assert(views.take(self.group as int) == views);
        }
    }

    /// Starts to read the rules of `groups`.
    pub fn new(groups: Vec<&'a Group>) -> (it: Self)
        ensures
            it.pairs() == flatten(group_views(groups@)),
            it.position() == 0,
    {
        let ghost views = group_views(groups@);
        let mut size: usize = 0;
        let mut i: usize = 0;
        assert(views.take(0) =~= Seq::<GroupView>::empty());
        while i < groups.len()
            invariant
                i <= groups.len(),
                views == group_views(groups@),
                size == if flatten(views.take(i as int)).len() <= usize::MAX {
                    flatten(views.take(i as int)).len()
                } else {
                    usize::MAX as nat
                },
            decreases groups.len() - i,
        {
            proof {
                lemma_flatten_take(views, i as int);
            }
            size = size.saturating_add(groups[i].rules.len());
            i += 1;
        }
        proof {
            assert(views.take(groups@.len() as int) == views);
        }
        GroupListIter { groups, group: 0, rule: 0, size }
    }

    /// The number of rules in all the groups, or the largest number that the
    /// machine word holds where there are more.
    pub fn size(&self) -> (n: usize)
        ensures
            n == if self.pairs().len() <= usize::MAX {
                self.pairs().len()
            } else {
                usize::MAX as nat
            },
    {
        proof {
            use_type_invariant(self);
        }
        self.size
    }

    /// Goes on to the start of the next group. The pairs that have not been
    /// read stay the same.
    fn advance_group(&mut self) -> (more: bool)
        requires
            old(self).group < old(self).groups@.len(),
            old(self).rule == old(self).groups@[old(self).group as int]@.rules.len(),
        ensures
            final(self).pairs() == old(self).pairs(),
            final(self).position() == old(self).position(),
            final(self).groups == old(self).groups,
            final(self).group == old(self).group + 1,
            final(self).rule == 0,
            more == (final(self).group < final(self).groups@.len()),
    {
        proof {
            use_type_invariant(&*self);
            lemma_flatten_take(group_views(self.groups@), self.group as int);
        }
        let n = self.groups.len();
        self.rule = 0;
        self.group = self.group + 1;
        self.group < n
    }

    /// Reads the next pair: the rule, and the group that holds it.
    pub fn next(&mut self) -> (r: Option<(&'a Rule, &'a Group)>)
        ensures
            final(self).pairs() == old(self).pairs(),
            match r {
                Some(pair) => old(self).remaining().len() > 0 && (pair.0@, pair.1@) == old(
                    self,
                ).remaining()[0] && final(self).position() == old(self).position() + 1,
                None => old(self).remaining().len() == 0 && final(self).position() == old(
                    self,
                ).position(),
            },
            0 <= final(self).position() <= final(self).pairs().len(),
    {
        proof {
            use_type_invariant(&*self);
        }
        loop
            invariant
                self.pairs() == old(self).pairs(),
                self.position() == old(self).position(),
                self.groups == old(self).groups,
                self.group <= self.groups@.len(),
                self.group < self.groups@.len() ==> self.rule <= self.groups@[self.group as int]@.rules.len(),
                self.group == self.groups@.len() ==> self.rule == 0,
            decreases self.groups@.len() - self.group,
        {
            let ghost views = group_views(self.groups@);
            proof {
                use_type_invariant(&*self);
            }
            if self.group >= self.groups.len() {
                proof {
                    assert(views.take(self.group as int) == views);
                }
                return None;
            }
            let group: &'a Group = self.groups[self.group];
            if self.rule < group.rules.len() {
                let rule: &'a Rule = &group.rules[self.rule];
                proof {
                    lemma_flatten_index(views, self.group as int, self.rule as int);
                }
                self.rule = self.rule + 1;
                return Some((rule, group));
            }
            self.advance_group();
        }
    }

    /// Skips `n` pairs and reads the one after them.
    pub fn nth(&mut self, n: usize) -> (r: Option<(&'a Rule, &'a Group)>)
        ensures
            final(self).pairs() == old(self).pairs(),
            match r {
                Some(pair) => n < old(self).remaining().len() && (pair.0@, pair.1@) == old(
                    self,
                ).remaining()[n as int] && final(self).position() == old(self).position() + n + 1,
                None => n >= old(self).remaining().len() && final(self).remaining().len() == 0,
            },
    {
        let mut k: usize = 0;
        proof {
            use_type_invariant(&*self);
            self.lemma_position_bound();
        }
        let ghost start = self.position();
        while k < n
            invariant
                k <= n,
                self.pairs() == old(self).pairs(),
                start == old(self).position(),
                self.position() == start + k,
                0 <= start,
                self.position() <= self.pairs().len(),
            decreases n - k,
        {
            match self.next() {
                Some(_) => {},
                None => {
                    return None;
                },
            }
            k += 1;
        }
        self.next()
    }
}

} // verus!
