//! A cognate: a named set of groups of rules.

use vstd::prelude::*;
use crate::error::{AnnalsError, ErrorView};
use crate::group::{flatten, lemma_flatten_take, parse_all, str_texts, Group, GroupView};
use crate::rule::RuleView;

verus! {

/// A named entry of a grammar: groups of rules, one of which is chosen each
/// time the name is expanded.
#[derive(Debug)]
pub struct Cognate {
    pub name: String,
    groups: Vec<Group>,
}

/// A [`Cognate`] as sequences.
pub struct CognateView {
    pub name: Seq<char>,
    pub groups: Seq<GroupView>,
}

/// The views of a list of groups.
pub open spec fn views_of_groups(groups: Seq<Group>) -> Seq<GroupView> {
    Seq::new(groups.len(), |i: int| groups[i]@)
}

impl View for Cognate {
    type V = CognateView;

    closed spec fn view(&self) -> CognateView {
        CognateView { name: self.name@, groups: views_of_groups(self.groups@) }
    }
}

impl Cognate {
    /// The groups of the cognate.
    pub closed spec fn group_seq(&self) -> Seq<Group> {
        self.groups@
    }

    /// A cognate with the given name and no group.
    pub fn new(name: &str) -> (c: Self)
        ensures
            c@.name == name@,
            c@.groups == Seq::<GroupView>::empty(),
    {
        let c = Cognate { name: name.to_owned(), groups: Vec::new() };
        assert(views_of_groups(c.groups@) =~= Seq::<GroupView>::empty());
        c
    }

    /// The name of the cognate.
    pub fn name(&self) -> (r: &str)
        ensures
            r@ == self@.name,
    {
        self.name.as_str()
    }

    /// The number of groups.
    pub fn len(&self) -> (n: usize)
        ensures
            n == self@.groups.len(),
    {
        self.groups.len()
    }

    /// The number of rules in all the groups, or the largest number that the
    /// machine word holds where there are more.
    pub fn rules_count(&self) -> (n: usize)
        ensures
            n == if flatten(self@.groups).len() <= usize::MAX {
                flatten(self@.groups).len()
            } else {
                usize::MAX as nat
            },
    {
        let ghost views = self@.groups;
        let mut n: usize = 0;
        let mut i: usize = 0;
        assert(views.take(0) =~= Seq::<GroupView>::empty());
        while i < self.groups.len()
            invariant
                i <= self.groups@.len(),
                views == views_of_groups(self.groups@),
                n == if flatten(views.take(i as int)).len() <= usize::MAX {
                    flatten(views.take(i as int)).len()
                } else {
                    usize::MAX as nat
                },
            decreases self.groups@.len() - i,
        {
            proof {
                lemma_flatten_take(views, i as int);
            }
            n = n.saturating_add(self.groups[i].len());
            i += 1;
        }
        proof {
            assert(views.take(self.groups@.len() as int) == views);
        }
        n
    }

    /// Whether the cognate has no group.
    pub fn is_empty(&self) -> (b: bool)
        ensures
            b == (self@.groups.len() == 0),
    {
        self.groups.len() == 0
    }

    /// The groups, in order.
    pub fn groups(&self) -> (r: &[Group])
        ensures
            r@ == self.group_seq(),
            views_of_groups(r@) == self@.groups,
    {
        self.groups.as_slice()
    }

    /// An iterator over the groups, in order.
    pub fn iter_groups(&self) -> (r: std::slice::Iter<'_, Group>)
        ensures
            vstd::std_specs::iter::IteratorSpec::remaining(&r) == self.group_seq().as_ref(),
            views_of_groups(self.group_seq()) == self@.groups,
    {
        broadcast use vstd::std_specs::slice::axiom_spec_slice_iter;

        self.groups.as_slice().iter()
    }

    /// Adds a group without tags whose rules are the texts of `rules`. Where
    /// a text does not parse, the cognate stays as it is, and the error is
    /// that of the first such text.
    pub fn group_from_rules(&mut self, rules: &[&str]) -> (r: Result<(), AnnalsError>)
        ensures
            final(self)@.name == old(self)@.name,
            match r {
                Ok(_) => parse_all(str_texts(rules@)) is Ok && final(self)@.groups == old(
                    self,
                )@.groups.push(
                    GroupView {
                        tags: Map::<Seq<char>, Seq<char>>::empty(),
                        rules: parse_all(str_texts(rules@))->Ok_0,
                    },
                ),
                Err(e) => parse_all(str_texts(rules@)) == Err::<Seq<RuleView>, ErrorView>(e@)
                    && final(self)@.groups == old(self)@.groups,
            },
    {
        match Group::from_rules(rules) {
            Ok(group) => {
                self.groups.push(group);
                proof {
                    assert(views_of_groups(self.groups@) =~= views_of_groups(
                        old(self).groups@,
                    ).push(group@));
                }
                Ok(())
            },
            Err(e) => Err(e),
        }
    }

    /// Adds an empty group at the end and hands it out for filling.
    pub fn add_group(&mut self) -> (r: Option<&mut Group>)
        ensures
            final(self)@.name == old(self)@.name,
            r matches Some(group) && group@.tags == Map::<Seq<char>, Seq<char>>::empty()
                && group@.rules == Seq::<RuleView>::empty() && final(self)@.groups == old(
                self,
            )@.groups.push(final(group)@),
    {
        self.groups.push(Group::new());
        let n = self.groups.len();
        proof {
            let before = old(self).groups@;
            let now = self.groups@;
            assert forall|g: Group| views_of_groups(#[trigger] now.update(n - 1, g))
                == views_of_groups(before).push(g@) by {
                assert(views_of_groups(now.update(n - 1, g)) =~= views_of_groups(before).push(g@));
            }
        }
        Some(&mut self.groups[n - 1])
    }
}

} // verus!
