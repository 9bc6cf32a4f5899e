//! Cluster configuration and its dynamic change.
//!
//! A change of membership runs through three phases. While the
//! configuration is stable, the current members decide. Once a change is
//! requested, the new members catch up while the old members alone go on
//! deciding. Then both member sets must agree, each by its own majority,
//! until the new members take over and the configuration is stable again.
use crate::node::NodeId;
use crate::order::{le, lemma_order, lesser, lt, min_value, total_order};
use crate::quorum::{
    answers_all, answers_only, guaranteed, lemma_answer_by_reference, lemma_answer_of_function,
    lemma_guaranteed_downward, lemma_majority_value_exists, lemma_majority_value_of_members,
    lemma_majority_value_unique, majority_answer, majority_value, median,
};
use std::collections::BTreeSet;
use vstd::prelude::*;
use vstd::std_specs::btree::spec_btree_keys_iter;
use vstd::std_specs::iter::IteratorSpec;

verus! {

broadcast use vstd::laws_cmp::group_laws_cmp;

/// The members of a cluster.
pub type ClusterMembers = BTreeSet<NodeId>;

/// The phase of a cluster configuration.
#[derive(Debug, Clone, Copy, PartialEq, Eq, Structural)]
pub enum ClusterState {
    /// No change is in progress.
    Stable,
    /// A change was requested and the new members are catching up.
    ///
    /// Only the old members vote in this phase.
    CatchUp,
    /// Old and new members must both agree.
    Joint,
}

impl ClusterState {
    /// Whether no change is in progress.
    pub fn is_stable(self) -> (r: bool)
        ensures
            r == (self == ClusterState::Stable),
    {
        self == ClusterState::Stable
    }

    /// Whether old and new members must both agree.
    pub fn is_joint(self) -> (r: bool)
        ensures
            r == (self == ClusterState::Joint),
    {
        self == ClusterState::Joint
    }
}

/// Why a configuration refused an operation.
#[derive(Debug, Clone, Copy, PartialEq, Eq, Structural)]
pub enum ConfigError {
    /// A change of membership is already in progress.
    ChangeInProgress,
}

/// What a cluster configuration holds, as mathematical sets.
pub struct ConfigView {
    /// The members after the change; while stable, the current members.
    pub new_members: Set<NodeId>,
    /// The members before the change; empty while stable.
    pub old_members: Set<NodeId>,
    /// The phase.
    pub state: ClusterState,
}

impl ConfigView {
    /// The stable configuration of `members`.
    pub open spec fn stable(members: Set<NodeId>) -> ConfigView {
        ConfigView { new_members: members, old_members: Set::empty(), state: ClusterState::Stable }
    }

    /// Every node that the cluster knows, voter or not.
    pub open spec fn members(self) -> Set<NodeId> {
        self.new_members.union(self.old_members)
    }

    /// The member set whose majority decides ordinary matters.
    pub open spec fn primary_members(self) -> Set<NodeId> {
        match self.state {
            ClusterState::Stable => self.new_members,
            ClusterState::CatchUp => self.old_members,
            ClusterState::Joint => self.old_members,
        }
    }

    /// The configuration that a request to change the members to `target`
    /// leads to.
    pub open spec fn start_change(self, target: Set<NodeId>) -> ConfigView {
        ConfigView {
            new_members: target,
            old_members: self.primary_members(),
            state: ClusterState::CatchUp,
        }
    }

    /// The configuration one step further along the cycle of phases.
    pub open spec fn next(self) -> ConfigView {
        match self.state {
            ClusterState::Stable => self,
            ClusterState::CatchUp => ConfigView { state: ClusterState::Joint, ..self },
            ClusterState::Joint => ConfigView::stable(self.new_members),
        }
    }

    /// The member sets are finite, the new one is not empty, and the old
    /// one is empty exactly while the configuration is stable.
    pub open spec fn well_formed(self) -> bool {
        &&& self.new_members.finite()
        &&& self.old_members.finite()
        &&& self.new_members.len() > 0
        &&& self.state == ClusterState::Stable <==> self.old_members.len() == 0
    }

    /// Every member set that a commit decision consults has a member.
    pub open spec fn can_decide(self) -> bool {
        match self.state {
            ClusterState::Stable => self.new_members.len() > 0,
            ClusterState::CatchUp => self.old_members.len() > 0,
            ClusterState::Joint => self.new_members.len() > 0 && self.old_members.len() > 0,
        }
    }

    /// The members whose values a commit decision reads.
    pub open spec fn voters(self) -> Set<NodeId> {
        match self.state {
            ClusterState::Stable => self.new_members,
            ClusterState::CatchUp => self.old_members,
            ClusterState::Joint => self.members(),
        }
    }

    /// Every member set that the readiness gate consults has a member.
    pub open spec fn can_decide_fully(self) -> bool {
        match self.state {
            ClusterState::Stable => self.new_members.len() > 0,
            _ => self.new_members.len() > 0 && self.old_members.len() > 0,
        }
    }

    /// The members whose values the readiness gate reads.
    pub open spec fn full_voters(self) -> Set<NodeId> {
        match self.state {
            ClusterState::Stable => self.new_members,
            _ => self.members(),
        }
    }

    /// The value that may be committed when member `n` reports
    /// `values(n)`.
    pub open spec fn consensus_value<T: Ord>(self, values: spec_fn(NodeId) -> T) -> T {
        match self.state {
            ClusterState::Stable => majority_value(self.new_members, values),
            ClusterState::CatchUp => majority_value(self.old_members, values),
            ClusterState::Joint => min_value(
                majority_value(self.new_members, values),
                majority_value(self.old_members, values),
            ),
        }
    }

    /// The value that both member sets guarantee, each by its own
    /// majority, when member `n` reports `values(n)`.
    pub open spec fn full_consensus_value<T: Ord>(self, values: spec_fn(NodeId) -> T) -> T {
        match self.state {
            ClusterState::Stable => majority_value(self.new_members, values),
            _ => min_value(
                majority_value(self.new_members, values),
                majority_value(self.old_members, values),
            ),
        }
    }

    /// `x` is the lesser of the two majority values, under values that `f`
    /// answered for the new members and for the old ones.
    pub open spec fn joint_answer<F: Fn(&NodeId) -> T, T: Ord>(self, f: F, x: T) -> bool {
        exists|a: T, b: T|
            #![trigger majority_answer(f, self.new_members, a), majority_answer(f, self.old_members, b)]
            majority_answer(f, self.new_members, a) && majority_answer(f, self.old_members, b) && x
                == min_value(a, b)
    }

    /// `x` is the value that may be committed, under values that `f`
    /// answered.
    pub open spec fn consensus_answer<F: Fn(&NodeId) -> T, T: Ord>(self, f: F, x: T) -> bool {
        match self.state {
            ClusterState::Stable => majority_answer(f, self.new_members, x),
            ClusterState::CatchUp => majority_answer(f, self.old_members, x),
            ClusterState::Joint => self.joint_answer(f, x),
        }
    }

    /// `x` is the value that both member sets guarantee, under values that
    /// `f` answered.
    pub open spec fn full_consensus_answer<F: Fn(&NodeId) -> T, T: Ord>(self, f: F, x: T) -> bool {
        match self.state {
            ClusterState::Stable => majority_answer(f, self.new_members, x),
            _ => self.joint_answer(f, x),
        }
    }
}

/// The configuration of a cluster: its members, and how far a change of
/// membership has come.
///
/// A configuration is never changed in place: each transition returns a
/// new one.
#[derive(Debug, PartialEq, Eq)]
pub struct ClusterConfig {
    new: ClusterMembers,
    old: ClusterMembers,
    state: ClusterState,
}

impl View for ClusterConfig {
    type V = ConfigView;

    closed spec fn view(&self) -> ConfigView {
        ConfigView { new_members: self.new@, old_members: self.old@, state: self.state }
    }
}

impl Clone for ClusterConfig {
    fn clone(&self) -> (r: Self)
        ensures
            r@ == self@,
    {
        ClusterConfig { new: self.new.clone(), old: self.old.clone(), state: self.state }
    }
}

impl ClusterConfig {
    /// The current phase.
    pub fn state(&self) -> (r: ClusterState)
        ensures
            r == self@.state,
    {
        self.state
    }

    /// The members after the change. While stable, the current members.
    pub fn new_members(&self) -> (r: &ClusterMembers)
        ensures
            r@ == self@.new_members,
    {
        &self.new
    }

    /// The members before the change. Empty while stable.
    pub fn old_members(&self) -> (r: &ClusterMembers)
        ensures
            r@ == self@.old_members,
    {
        &self.old
    }

    /// The member set whose majority decides ordinary matters: the
    /// current members while stable, the old members during a change.
    pub fn primary_members(&self) -> (r: &ClusterMembers)
        ensures
            r@ == self@.primary_members(),
    {
        match self.state {
            ClusterState::Stable => &self.new,
            ClusterState::CatchUp => &self.old,
            ClusterState::Joint => &self.old,
        }
    }

    /// Every node that the cluster knows: the new members and the old
    /// ones, voters or not.
    pub fn members(&self) -> (r: ClusterMembers)
        ensures
            r@ == self@.members(),
    {
        let ghost listed = spec_btree_keys_iter(&self.old).remaining();
        let mut all = self.new.clone();
        for n in it: self.old.iter()
            invariant
                it.seq() == listed,
                listed.unref().to_set() == self.old@,
                all@ == self.new@.union(listed.unref().take(it.index()).to_set()),
        {
            let ghost seen = listed.unref().take(it.index());
            let ghost before = all@;
            all.insert(*n);
            proof {
                let grown = listed.unref().take(it.index() + 1);
                assert(grown == seen.push(*n));
                assert(grown.to_set() == seen.to_set().insert(*n)) by {
                    assert forall|x: NodeId| grown.to_set().contains(x) implies seen.to_set().insert(
                        *n,
                    ).contains(x) by {
                        let i = choose|i: int| 0 <= i < grown.len() && grown[i] == x;
                        if i < seen.len() {
                            assert(seen[i] == x);
                        }
                    }
                    assert forall|x: NodeId| seen.to_set().insert(*n).contains(
                        x,
                    ) implies grown.to_set().contains(x) by {
                        if x == *n {
                            assert(grown[seen.len() as int] == x);
                        } else {
                            let i = choose|i: int| 0 <= i < seen.len() && seen[i] == x;
                            assert(grown[i] == x);
                        }
                    }
                }
                assert(all@ == self.new@.union(grown.to_set()));
            }
        }
        proof {
            assert(listed.unref().take(listed.len() as int) == listed.unref());
        }
        all
    }

    /// Whether `node` is a member, new or old.
    pub fn is_known_node(&self, node: &NodeId) -> (r: bool)
        ensures
            r == self@.members().contains(*node),
    {
        self.new.contains(node) || self.old.contains(node)
    }

    /// The stable configuration of `members`.
    pub fn new(members: ClusterMembers) -> (r: Self)
        ensures
            r@ == ConfigView::stable(members@),
            r@.well_formed() <==> members@.len() > 0,
    {
        proof {
            lemma_members_finite(&members);
        }
        ClusterConfig { new: members, old: BTreeSet::new(), state: ClusterState::Stable }
    }

    /// The configuration with the given member sets in the given phase.
    pub fn with_state(
        new_members: ClusterMembers,
        old_members: ClusterMembers,
        state: ClusterState,
    ) -> (r: Self)
        ensures
            r@ == (ConfigView { new_members: new_members@, old_members: old_members@, state }),
    {
        ClusterConfig { new: new_members, old: old_members, state }
    }

    /// Requests a change of the members to `new`.
    ///
    /// From a stable configuration, returns the configuration in which the
    /// members of `new` catch up while the current members go on deciding.
    /// While a change is already in progress the request is refused: the
    /// members that decide now would otherwise be lost track of.
    pub fn start_config_change(&self, new: ClusterMembers) -> (r: Result<Self, ConfigError>)
        ensures
            match r {
                Ok(next) => {
                    &&& self@.state == ClusterState::Stable
                    &&& next@ == self@.start_change(new@)
                    &&& self@.well_formed() && new@.len() > 0 ==> next@.well_formed()
                },
                Err(e) => self@.state != ClusterState::Stable && e == ConfigError::ChangeInProgress,
            },
    {
        proof {
            lemma_members_finite(&new);
        }
        match self.state {
            ClusterState::Stable => Ok(
                ClusterConfig {
                    new,
                    old: self.primary_members().clone(),
                    state: ClusterState::CatchUp,
                },
            ),
            _ => Err(ConfigError::ChangeInProgress),
        }
    }

    /// The configuration one step further along the cycle of phases:
    /// from catching up to joint agreement, from there to the stable
    /// configuration of the new members. A stable configuration stays as
    /// it is.
    pub fn to_next_state(&self) -> (r: Self)
        ensures
            r@ == self@.next(),
            self@.well_formed() ==> r@.well_formed(),
    {
        match self.state {
            ClusterState::Stable => self.clone(),
            ClusterState::CatchUp => {
                let mut next = self.clone();
                next.state = ClusterState::Joint;
                next
            },
            ClusterState::Joint => {
                let mut next = self.clone();
                next.old = BTreeSet::new();
                next.state = ClusterState::Stable;
                next
            },
        }
    }

    /// The value that may be committed now, when `f` gives the value that
    /// each member reports: the largest value that a strict majority
    /// guarantees.
    ///
    /// While stable the majority is one of the current members, while the
    /// new members catch up it is one of the old members, who alone are
    /// asked. Under joint agreement the old members and the new ones must
    /// each guarantee the value by a majority of their own, so the result
    /// is the lesser of the two majority values.
    ///
    /// Every member set that is consulted must have a member.
    pub fn consensus_value<F, T>(&self, f: F) -> (r: T) where
        F: Fn(&NodeId) -> T,
        T: Ord + Copy + Default,

        requires
            total_order::<T>(),
            self@.can_decide(),
            answers_all(f, self@.voters()),
        ensures
            self@.consensus_answer(f, r),
    {
        match self.state {
            ClusterState::Stable => {
                let r = median(&self.new, &f);
                proof {
                    lemma_answer_by_reference(&f, self.new@, r);
                }
                r
            },
            ClusterState::CatchUp => {
                let r = median(&self.old, &f);
                proof {
                    lemma_answer_by_reference(&f, self.old@, r);
                }
                r
            },
            ClusterState::Joint => {
                let a = median(&self.new, &f);
                let b = median(&self.old, &f);
                proof {
                    lemma_answer_by_reference(&f, self.new@, a);
                    lemma_answer_by_reference(&f, self.old@, b);
                }
                lesser(a, b)
            },
        }
    }

    /// The value that the old members and the new ones both guarantee,
    /// each by a majority of their own, when `f` gives the value that
    /// each member reports.
    ///
    /// While stable this is [`ClusterConfig::consensus_value`]. During a
    /// change it is the lesser of the two majority values, also while the
    /// new members still catch up: it tells whether they have come far
    /// enough for joint agreement.
    ///
    /// Every member set that is consulted must have a member.
    pub fn full_consensus_value<F, T>(&self, f: F) -> (r: T) where
        F: Fn(&NodeId) -> T,
        T: Ord + Copy + Default,

        requires
            total_order::<T>(),
            self@.can_decide_fully(),
            answers_all(f, self@.full_voters()),
        ensures
            self@.full_consensus_answer(f, r),
    {
        if self.state.is_stable() {
            let r = median(&self.new, &f);
            proof {
                lemma_answer_by_reference(&f, self.new@, r);
            }
            r
        } else {
            let a = median(&self.new, &f);
            let b = median(&self.old, &f);
            proof {
                lemma_answer_by_reference(&f, self.new@, a);
                lemma_answer_by_reference(&f, self.old@, b);
            }
            lesser(a, b)
        }
    }
}

/// The member set of a configuration is finite.
pub proof fn lemma_members_finite(members: &ClusterMembers)
    ensures
        members@.finite(),
{
    assert(spec_btree_keys_iter(members).remaining().unref().to_set() == members@);
}

/// A change that is requested and then advanced twice ends in the stable
/// configuration of the requested members, with no old members left.
pub proof fn lemma_change_completes(config: ConfigView, target: Set<NodeId>)
    ensures
        config.start_change(target).state == ClusterState::CatchUp,
        config.start_change(target).next().state == ClusterState::Joint,
        config.start_change(target).next().next() == ConfigView::stable(target),
{
}

/// The transitions keep a configuration well formed, as long as the
/// requested members are finitely many and at least one.
pub proof fn lemma_transitions_keep_well_formed(config: ConfigView, target: Set<NodeId>)
    requires
        config.well_formed(),
    ensures
        config.next().well_formed(),
        config.can_decide(),
        config.can_decide_fully(),
        config.state == ClusterState::Stable && target.finite() && target.len() > 0
            ==> config.start_change(target).well_formed(),
{
}

/// Under joint agreement the value that may be committed is the lesser
/// of the majority value of the new members and that of the old members.
pub proof fn lemma_joint_consensus<T: Ord>(config: ConfigView, values: spec_fn(NodeId) -> T)
    requires
        config.state == ClusterState::Joint,
    ensures
        config.consensus_value(values) == min_value(
            majority_value(config.new_members, values),
            majority_value(config.old_members, values),
        ),
        config.full_consensus_value(values) == config.consensus_value(values),
{
}

/// Under joint agreement a strict majority of the new members and a
/// strict majority of the old members each hold the value that may be
/// committed, and it is the largest value of which that is true.
pub proof fn lemma_joint_consensus_is_guaranteed_by_both<T: Ord>(
    config: ConfigView,
    values: spec_fn(NodeId) -> T,
)
    requires
        total_order::<T>(),
        config.state == ClusterState::Joint,
        config.new_members.finite(),
        config.old_members.finite(),
        config.can_decide(),
    ensures
        guaranteed(config.new_members, values, config.consensus_value(values)),
        guaranteed(config.old_members, values, config.consensus_value(values)),
        forall|y: T|
            #![trigger guaranteed(config.new_members, values, y)]
            #![trigger guaranteed(config.old_members, values, y)]
            guaranteed(config.new_members, values, y) && guaranteed(config.old_members, values, y)
                ==> le(y, config.consensus_value(values)),
{
    let a = majority_value(config.new_members, values);
    let b = majority_value(config.old_members, values);
    let r = config.consensus_value(values);
    lemma_majority_value_exists(config.new_members, values);
    lemma_majority_value_exists(config.old_members, values);
    lemma_order(a, b, a);
    lemma_order(b, a, b);
    lemma_guaranteed_downward(config.new_members, values, r, a);
    lemma_guaranteed_downward(config.old_members, values, r, b);
}

/// While the new members catch up, the value that may be committed is
/// the majority value of the old members: who the new members are and
/// what anyone but an old member reports makes no difference.
pub proof fn lemma_catch_up_consensus_ignores_new_members<T: Ord>(
    config: ConfigView,
    other: ConfigView,
    values: spec_fn(NodeId) -> T,
    others: spec_fn(NodeId) -> T,
)
    requires
        total_order::<T>(),
        config.state == ClusterState::CatchUp,
        other.state == ClusterState::CatchUp,
        config.old_members == other.old_members,
        config.old_members.finite(),
        config.can_decide(),
        forall|n: NodeId| config.old_members.contains(n) ==> values(n) == others(n),
    ensures
        config.consensus_value(values) == majority_value(config.old_members, values),
        config.consensus_value(values) == other.consensus_value(others),
{
    let x = majority_value(config.old_members, values);
    lemma_majority_value_exists(config.old_members, values);
    lemma_majority_value_of_members(config.old_members, values, others, x);
    lemma_majority_value_unique(config.old_members, others, x);
}

/// While the new members catch up, the readiness gate weighs both member
/// sets: it is the lesser of the two majority values. It differs from the
/// value that may be committed exactly when the majority value of the new
/// members is below that of the old members.
pub proof fn lemma_catch_up_gate<T: Ord>(config: ConfigView, values: spec_fn(NodeId) -> T)
    requires
        total_order::<T>(),
        config.state == ClusterState::CatchUp,
    ensures
        config.full_consensus_value(values) == min_value(
            majority_value(config.new_members, values),
            majority_value(config.old_members, values),
        ),
        config.full_consensus_value(values) != config.consensus_value(values) <==> lt(
            majority_value(config.new_members, values),
            majority_value(config.old_members, values),
        ),
        lt(majority_value(config.new_members, values), majority_value(config.old_members, values))
            ==> config.full_consensus_value(values) == majority_value(config.new_members, values),
{
    let a = majority_value(config.new_members, values);
    let b = majority_value(config.old_members, values);
    lemma_order(a, b, a);
    lemma_order(b, a, b);
}

/// The readiness gate never lets through more than may be committed.
pub proof fn lemma_full_consensus_is_stricter<T: Ord>(
    config: ConfigView,
    values: spec_fn(NodeId) -> T,
)
    requires
        total_order::<T>(),
    ensures
        le(config.full_consensus_value(values), config.consensus_value(values)),
        config.state != ClusterState::CatchUp ==> config.full_consensus_value(values)
            == config.consensus_value(values),
{
    let a = majority_value(config.new_members, values);
    let b = majority_value(config.old_members, values);
    lemma_order(a, b, a);
    lemma_order(b, a, b);
}

/// Where `f` answers as the function `values` of the member, what
/// [`ClusterConfig::consensus_value`] returns is the value that may be
/// committed under `values`.
pub proof fn lemma_consensus_of_function<F: Fn(&NodeId) -> T, T: Ord>(
    config: ConfigView,
    f: F,
    values: spec_fn(NodeId) -> T,
    x: T,
)
    requires
        total_order::<T>(),
        answers_only(f, config.voters(), values),
        config.consensus_answer(f, x),
    ensures
        x == config.consensus_value(values),
{
    match config.state {
        ClusterState::Stable => {
            lemma_answer_of_function(f, config.new_members, values, x);
        },
        ClusterState::CatchUp => {
            lemma_answer_of_function(f, config.old_members, values, x);
        },
        ClusterState::Joint => {
            lemma_joint_answer_of_function(config, f, values, x);
        },
    }
}

/// Where `f` answers as the function `values` of the member, what
/// [`ClusterConfig::full_consensus_value`] returns is the value that both
/// member sets guarantee under `values`.
pub proof fn lemma_full_consensus_of_function<F: Fn(&NodeId) -> T, T: Ord>(
    config: ConfigView,
    f: F,
    values: spec_fn(NodeId) -> T,
    x: T,
)
    requires
        total_order::<T>(),
        answers_only(f, config.full_voters(), values),
        config.full_consensus_answer(f, x),
    ensures
        x == config.full_consensus_value(values),
{
    if config.state == ClusterState::Stable {
        lemma_answer_of_function(f, config.new_members, values, x);
    } else {
        lemma_joint_answer_of_function(config, f, values, x);
    }
}

/// Where `f` answers as the function `values` of the member, the lesser
/// of the two majority values under its answers is the lesser of the two
/// under `values`.
proof fn lemma_joint_answer_of_function<F: Fn(&NodeId) -> T, T: Ord>(
    config: ConfigView,
    f: F,
    values: spec_fn(NodeId) -> T,
    x: T,
)
    requires
        total_order::<T>(),
        answers_only(f, config.members(), values),
        config.joint_answer(f, x),
    ensures
        x == min_value(
            majority_value(config.new_members, values),
            majority_value(config.old_members, values),
        ),
{
    let (a, b) = choose|a: T, b: T|
        #![trigger majority_answer(f, config.new_members, a), majority_answer(f, config.old_members, b)]
        majority_answer(f, config.new_members, a) && majority_answer(f, config.old_members, b) && x
            == min_value(a, b);
    lemma_answer_of_function(f, config.new_members, values, a);
    lemma_answer_of_function(f, config.old_members, values, b);
}

} // verus!
