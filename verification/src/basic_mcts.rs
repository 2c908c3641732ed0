//! The search: what a node has learned about the actions tried from one state, the choice
//! of the next action to try, playouts, and the choice of the best action at the root.
//!
//! Rewards are whole numbers and a node keeps their exact sum for every action, so that a
//! mean reward is a quotient of two integers and means are compared without rounding. The
//! grade that steers exploration is not computed here: the search is given a function for it.

use vstd::prelude::*;
use std::collections::HashMap;
use rand::StdRng;
use vstd::pervasive::unreached;
use crate::determinization::{numbers, DeterminizeError};
use crate::counting::lemma_enough_cards;
use crate::digest::digest_of;
use crate::laws::lemma_final_turn_ends;
use crate::hanabi::{Action, ActionResult, GameState, Player};
use crate::model::{
    lemma_held_can_act, lemma_legal_actions, lemma_offered_is_carried_out, lemma_step_held,
    lemma_step_progress, GameView, Outcome,
};
use crate::random::{draw_index, random_index, WeightedCard};

verus! {

/// What a node has learned about one action: how often it was tried from there, and the sum
/// of the rewards that followed. Their quotient is the action's mean reward.
pub struct ArrowView {
    pub reward_sum: nat,
    pub num_samples: nat,
}

/// What a node has learned: the actions that were tried from there, in the order in which
/// they were first tried, for each of them what became of it, and how often any was tried.
pub struct NodeView {
    pub tried: Seq<Action>,
    pub actions: Map<Action, ArrowView>,
    pub total_samples: nat,
}

/// The most samples that a node can count: with more, the products by which two mean rewards
/// are compared would not fit in 128 bits.
pub const MAX_SAMPLES: u64 = 0xffff_ffff_ffff;

impl NodeView {
    /// The node that has learned nothing.
    pub open spec fn empty() -> NodeView {
        NodeView { tried: Seq::empty(), actions: Map::empty(), total_samples: 0 }
    }

    pub open spec fn reward_sum(self, action: Action) -> nat {
        if self.actions.contains_key(action) {
            self.actions[action].reward_sum
        } else {
            0
        }
    }

    pub open spec fn num_samples(self, action: Action) -> nat {
        if self.actions.contains_key(action) {
            self.actions[action].num_samples
        } else {
            0
        }
    }

    /// The node after `reward` followed `action` once more.
    pub open spec fn with_sample(self, action: Action, reward: u32) -> NodeView {
        NodeView {
            tried: if self.actions.contains_key(action) {
                self.tried
            } else {
                self.tried.push(action)
            },
            actions: self.actions.insert(
                action,
                ArrowView {
                    reward_sum: self.reward_sum(action) + reward as nat,
                    num_samples: self.num_samples(action) + 1,
                },
            ),
            total_samples: self.total_samples + 1,
        }
    }

    /// How often the first `n` of the tried actions were tried together.
    pub open spec fn samples_of(self, n: int) -> nat
        decreases n,
    {
        if n <= 0 {
            0
        } else {
            self.samples_of(n - 1) + self.num_samples(self.tried[n - 1])
        }
    }

    /// Those of the first `n` of the tried actions that no tried action has a larger mean
    /// reward than, in their order.
    pub open spec fn best_of(self, n: int) -> Seq<Action>
        decreases n,
    {
        if n <= 0 {
            Seq::empty()
        } else {
            let rest = self.best_of(n - 1);
            if self.is_best(self.tried[n - 1]) {
                rest.push(self.tried[n - 1])
            } else {
                rest
            }
        }
    }

    /// What holds of every node: the tried actions are those with a record, each once; every
    /// record counts at least one sample; and the node has counted as many samples as its
    /// records together.
    pub open spec fn inv(self) -> bool {
        &&& self.tried.no_duplicates()
        &&& forall|a: Action| self.actions.contains_key(a) <==> self.tried.contains(a)
        &&& forall|a: Action| #[trigger] self.actions.contains_key(a) ==> self.num_samples(a) >= 1
        &&& self.total_samples == self.samples_of(self.tried.len() as int)
    }

    /// The node after each of `rewards` followed `action`, one after the other.
    pub open spec fn with_samples(self, action: Action, rewards: Seq<u32>) -> NodeView
        decreases rewards.len(),
    {
        if rewards.len() == 0 {
            self
        } else {
            self.with_samples(action, rewards.drop_last()).with_sample(action, rewards.last())
        }
    }

    /// Whether the mean reward of `a` is at least that of `b`, both having been tried.
    pub open spec fn mean_at_least(self, a: Action, b: Action) -> bool {
        self.reward_sum(a) * self.num_samples(b) >= self.reward_sum(b) * self.num_samples(a)
    }

    /// Whether `a` was tried and no action that was tried has a larger mean reward.
    pub open spec fn is_best(self, a: Action) -> bool {
        self.actions.contains_key(a) && forall|b: Action| #[trigger]
            self.actions.contains_key(b) ==> self.mean_at_least(a, b)
    }
}

impl ArrowView {
    /// Whether the mean reward of this record is at least that of `other`.
    pub open spec fn at_least(self, other: ArrowView) -> bool {
        self.reward_sum * other.num_samples >= other.reward_sum * self.num_samples
    }
}

/// The best among the first tried actions are those of them that are best.
pub proof fn lemma_best_of(node: NodeView, n: int, a: Action)
    requires
        0 <= n <= node.tried.len(),
    ensures
        node.best_of(n).contains(a) <==> node.is_best(a) && node.tried.take(n).contains(a),
    decreases n,
{
    if n > 0 {
        lemma_best_of(node, n - 1, a);
        crate::seq_facts::lemma_take_contains(node.tried, n - 1, a);
        if node.is_best(node.tried[n - 1]) {
            crate::seq_facts::lemma_push_contains(node.best_of(n - 1), node.tried[n - 1], a);
        }
    } else {
        crate::seq_facts::lemma_take_all(node.tried);
    }
}

/// A sample for an action that is among the first `n` tried counts once more among them.
proof fn lemma_samples_of_tried(node: NodeView, action: Action, reward: u32, n: int)
    requires
        node.inv(),
        node.actions.contains_key(action),
        0 <= n <= node.tried.len(),
    ensures
        node.with_sample(action, reward).samples_of(n) == node.samples_of(n) + (if node.tried.take(
            n,
        ).contains(action) {
            1nat
        } else {
            0nat
        }),
    decreases n,
{
    if n > 0 {
        lemma_samples_of_tried(node, action, reward, n - 1);
        crate::seq_facts::lemma_take_contains(node.tried, n - 1, action);
        if node.tried[n - 1] == action {
            let earlier = node.tried.take(n - 1);
            if earlier.contains(action) {
                let i = choose|i: int| 0 <= i < earlier.len() && earlier[i] == action;
                assert(node.tried[i] == action);
            }
        }
    }
}

/// A sample for an action that was not tried leaves the counts of the tried actions.
proof fn lemma_samples_of_new(node: NodeView, action: Action, reward: u32, n: int)
    requires
        node.inv(),
        !node.actions.contains_key(action),
        0 <= n <= node.tried.len(),
    ensures
        node.with_sample(action, reward).samples_of(n) == node.samples_of(n),
    decreases n,
{
    if n > 0 {
        lemma_samples_of_new(node, action, reward, n - 1);
        assert(node.tried.contains(node.tried[n - 1]));
    }
}

/// A sample keeps what holds of every node: the node has counted as many samples as its
/// records together.
pub proof fn lemma_with_sample_inv(node: NodeView, action: Action, reward: u32)
    requires
        node.inv(),
    ensures
        node.with_sample(action, reward).inv(),
{
    let after = node.with_sample(action, reward);
    let n = node.tried.len() as int;
    if node.actions.contains_key(action) {
        lemma_samples_of_tried(node, action, reward, n);
        crate::seq_facts::lemma_take_all(node.tried);
    } else {
        lemma_samples_of_new(node, action, reward, n);
        assert(after.tried[n] == action);
        assert forall|a: Action| after.actions.contains_key(a) <==> after.tried.contains(a) by {
            crate::seq_facts::lemma_push_contains(node.tried, action, a);
        }
        assert forall|i: int, j: int|
            0 <= i < after.tried.len() && 0 <= j < after.tried.len() && i
                != j implies after.tried[i] != after.tried[j] by {
            if i < n {
                assert(node.tried.contains(node.tried[i]));
            }
            if j < n {
                assert(node.tried.contains(node.tried[j]));
            }
        }
    }
}

/// Mean rewards are ordered: what is at least a second that is at least a third is at least
/// the third.
pub proof fn lemma_means_ordered(a: ArrowView, b: ArrowView, c: ArrowView)
    requires
        a.at_least(b),
        b.at_least(c),
        b.num_samples > 0,
    ensures
        a.at_least(c),
{
    let (sa, na) = (a.reward_sum as int, a.num_samples as int);
    let (sb, nb) = (b.reward_sum as int, b.num_samples as int);
    let (sc, nc) = (c.reward_sum as int, c.num_samples as int);
    assert(sa * nc >= sc * na) by (nonlinear_arith)
        requires
            sa * nb >= sb * na,
            sb * nc >= sc * nb,
            nb > 0,
            na >= 0,
            nc >= 0,
            sa >= 0,
            sb >= 0,
            sc >= 0,
    {
        assert((sa * nb) * nc >= (sb * na) * nc);
        assert((sb * nc) * na >= (sc * nb) * na);
        assert((sb * na) * nc == (sb * nc) * na);
        assert((sa * nb) * nc == nb * (sa * nc));
        assert((sc * nb) * na == nb * (sc * na));
        assert(nb * (sa * nc) >= nb * (sc * na));
    }
}

/// Whether position `i` holds one of the largest of `grades`.
pub open spec fn is_top(grades: Seq<u64>, i: int) -> bool {
    0 <= i < grades.len() && forall|j: int| 0 <= j < grades.len() ==> grades[j] <= grades[i]
}

/// The positions of the largest of `grades`, in rising order.
pub fn best_positions(grades: &Vec<u64>) -> (best: Vec<usize>)
    ensures
        forall|k: int| 0 <= k < best.len() ==> is_top(grades@, #[trigger] best[k] as int),
        forall|i: int| is_top(grades@, i) ==> best@.contains(i as usize),
        forall|k: int, l: int| 0 <= k < l < best.len() ==> best[k] < best[l],
        grades.len() > 0 ==> best.len() > 0,
{
    let mut best: Vec<usize> = Vec::new();
    let mut best_grade: u64 = 0;
    let mut i: usize = 0;
    while i < grades.len()
        invariant
            i <= grades.len(),
            i > 0 ==> best.len() > 0,
            forall|k: int|
                0 <= k < best.len() ==> (#[trigger] best[k]) < i && grades[best[k] as int]
                    == best_grade,
            forall|j: int| 0 <= j < i ==> grades[j] <= best_grade,
            forall|j: int| 0 <= j < i && grades[j] == best_grade ==> best@.contains(j as usize),
            forall|k: int, l: int| 0 <= k < l < best.len() ==> best[k] < best[l],
        decreases grades.len() - i,
    {
        let grade = grades[i];
        if i == 0 || grade > best_grade {
            best.clear();
            best.push(i);
            best_grade = grade;
            assert(best@[0] == i);
        } else if grade == best_grade {
            let ghost before = best@;
            best.push(i);
            proof {
                assert(best@[before.len() as int] == i);
                assert forall|j: int|
                    0 <= j < i + 1 && grades[j] == best_grade implies best@.contains(
                    j as usize,
                ) by {
                    crate::seq_facts::lemma_push_contains(before, i, j as usize);
                }
            }
        }
        i = i + 1;
    }
    proof {
        assert forall|i: int| is_top(grades@, i) implies best@.contains(i as usize) by {
            let first = best[0];
            assert(grades[first as int] <= grades[i]);
        }
    }
    best
}

/// The legal actions that were not tried from a node, in their order.
pub open spec fn untried(node: NodeView, legal_actions: Seq<Action>) -> Seq<Action>
    decreases legal_actions.len(),
{
    if legal_actions.len() == 0 {
        Seq::empty()
    } else {
        let rest = untried(node, legal_actions.drop_last());
        if node.actions.contains_key(legal_actions.last()) {
            rest
        } else {
            rest.push(legal_actions.last())
        }
    }
}

/// The untried actions are the legal actions of which the node has no record.
pub proof fn lemma_untried(node: NodeView, legal_actions: Seq<Action>, a: Action)
    ensures
        untried(node, legal_actions).contains(a) <==> legal_actions.contains(a)
            && !node.actions.contains_key(a),
    decreases legal_actions.len(),
{
    if legal_actions.len() > 0 {
        let init = legal_actions.drop_last();
        lemma_untried(node, init, a);
        assert(init.push(legal_actions.last()) =~= legal_actions);
        crate::seq_facts::lemma_push_contains(init, legal_actions.last(), a);
        crate::seq_facts::lemma_push_contains(untried(node, init), legal_actions.last(), a);
    }
}

/// Whether `grades` are grades that `exploration` gave to the records of the legal actions,
/// one for each action in their order.
pub open spec fn graded<G: Fn(u128, u64, u64) -> u64>(
    node: NodeView,
    legal_actions: Seq<Action>,
    exploration: &G,
    grades: Seq<u64>,
) -> bool {
    &&& grades.len() == legal_actions.len()
    &&& forall|i: int|
        0 <= i < grades.len() ==> call_ensures(
            *exploration,
            (
                node.reward_sum(legal_actions[i]) as u128,
                node.num_samples(legal_actions[i]) as u64,
                node.total_samples as u64,
            ),
            #[trigger] grades[i],
        )
}

/// Whether a node may select `chosen` from the legal actions: it is one of them; it was not
/// tried from the node if any of them was not; and else it is one to whose record
/// `exploration` gave a grade that none of the others' grades is above.
pub open spec fn may_select<G: Fn(u128, u64, u64) -> u64>(
    node: NodeView,
    legal_actions: Seq<Action>,
    exploration: &G,
    chosen: Action,
) -> bool {
    &&& legal_actions.contains(chosen)
    &&& untried(node, legal_actions).len() > 0 ==> !node.actions.contains_key(chosen)
    &&& untried(node, legal_actions).len() == 0 ==> exists|grades: Seq<u64>, i: int|
        graded(node, legal_actions, exploration, grades) && #[trigger] is_top(grades, i)
            && legal_actions[i] == chosen
}

/// The sum of some rewards.
pub open spec fn sum_of(rewards: Seq<u32>) -> nat
    decreases rewards.len(),
{
    if rewards.len() == 0 {
        0
    } else {
        sum_of(rewards.drop_last()) + rewards.last() as nat
    }
}

/// The node after each of some samples, an action and the reward that followed it, was
/// counted, one after the other.
pub open spec fn with_all(node: NodeView, samples: Seq<(Action, u32)>) -> NodeView
    decreases samples.len(),
{
    if samples.len() == 0 {
        node
    } else {
        with_all(node, samples.drop_last()).with_sample(samples.last().0, samples.last().1)
    }
}

/// How many of some samples are for `action`.
pub open spec fn times_tried(samples: Seq<(Action, u32)>, action: Action) -> nat
    decreases samples.len(),
{
    if samples.len() == 0 {
        0
    } else {
        times_tried(samples.drop_last(), action) + (if samples.last().0 == action {
            1nat
        } else {
            0nat
        })
    }
}

/// The sum of the rewards of those of some samples that are for `action`.
pub open spec fn rewards_of(samples: Seq<(Action, u32)>, action: Action) -> nat
    decreases samples.len(),
{
    if samples.len() == 0 {
        0
    } else {
        rewards_of(samples.drop_last(), action) + (if samples.last().0 == action {
            samples.last().1 as nat
        } else {
            0nat
        })
    }
}

/// Whatever the order in which samples for several actions come: each action has been tried
/// as often more as there are samples for it, its rewards sum to as much more as those
/// samples' rewards, the node has counted every sample, and it has still counted as many as
/// its records together.
pub proof fn lemma_samples_counted(node: NodeView, samples: Seq<(Action, u32)>, action: Action)
    requires
        node.inv(),
    ensures
        with_all(node, samples).inv(),
        with_all(node, samples).num_samples(action) == node.num_samples(action) + times_tried(
            samples,
            action,
        ),
        with_all(node, samples).reward_sum(action) == node.reward_sum(action) + rewards_of(
            samples,
            action,
        ),
        with_all(node, samples).total_samples == node.total_samples + samples.len(),
    decreases samples.len(),
{
    if samples.len() > 0 {
        lemma_samples_counted(node, samples.drop_last(), action);
        lemma_with_sample_inv(
            with_all(node, samples.drop_last()),
            samples.last().0,
            samples.last().1,
        );
    }
}

/// A sample moves the mean reward of its action towards its reward and not beyond: the new
/// mean lies between the old mean and the reward. The first sample of an action makes its
/// reward the mean.
pub proof fn lemma_mean_between(node: NodeView, action: Action, reward: u32)
    ensures
        ({
            let sum = node.reward_sum(action) as int;
            let n = node.num_samples(action) as int;
            let after = node.with_sample(action, reward);
            &&& after.num_samples(action) == n + 1
            &&& after.reward_sum(action) == sum + reward
            &&& n == 0 && sum == 0 ==> after.reward_sum(action) == reward * after.num_samples(
                action,
            )
            &&& n >= 1 && reward * n >= sum ==> sum * (n + 1) <= (sum + reward) * n && sum + reward
                <= reward * (n + 1)
            &&& n >= 1 && reward * n <= sum ==> (sum + reward) * n <= sum * (n + 1) && reward * (n
                + 1) <= sum + reward
        }),
{
    let sum = node.reward_sum(action) as int;
    let n = node.num_samples(action) as int;
    let r = reward as int;
    assert(sum * (n + 1) == sum * n + sum && (sum + r) * n == sum * n + r * n && r * (n + 1) == r
        * n + r) by (nonlinear_arith);
    assert(r * 1 == r) by (nonlinear_arith);
}

/// The mean reward of an action is the mean of its samples: after some rewards have
/// followed an action, the action has been tried that many times more, and its rewards
/// sum to as much more as the rewards do; what the node knows of other actions is as before.
pub proof fn lemma_stream_mean(node: NodeView, action: Action, rewards: Seq<u32>)
    ensures
        node.with_samples(action, rewards).num_samples(action) == node.num_samples(action)
            + rewards.len(),
        node.with_samples(action, rewards).reward_sum(action) == node.reward_sum(action) + sum_of(
            rewards,
        ),
        node.with_samples(action, rewards).total_samples == node.total_samples + rewards.len(),
        forall|other: Action|
            other != action ==> node.with_samples(action, rewards).num_samples(other)
                == node.num_samples(other) && node.with_samples(action, rewards).reward_sum(other)
                == node.reward_sum(other),
    decreases rewards.len(),
{
    if rewards.len() > 0 {
        lemma_stream_mean(node, action, rewards.drop_last());
    }
}

/// One action's record in a node.
#[derive(Debug, Clone, Copy)]
pub struct Arrow {
    reward_sum: u128,
    num_samples: u64,
}

impl View for Arrow {
    type V = ArrowView;

    closed spec fn view(&self) -> ArrowView {
        ArrowView { reward_sum: self.reward_sum as nat, num_samples: self.num_samples as nat }
    }
}

impl Arrow {
    pub fn reward_sum(&self) -> (sum: u128)
        ensures
            sum == self@.reward_sum,
    {
        self.reward_sum
    }

    pub fn num_samples(&self) -> (n: u64)
        ensures
            n == self@.num_samples,
    {
        self.num_samples
    }
}

/// What the search has learned about one state of the game: a record for each action that
/// was tried from there.
#[derive(Debug)]
pub struct Node {
    actions: Vec<(Action, Arrow)>,
    total_samples: u64,
}

impl View for Node {
    type V = NodeView;

    closed spec fn view(&self) -> NodeView {
        NodeView {
            tried: self.actions@.map_values(|record: (Action, Arrow)| record.0),
            actions: Map::new(
                |a: Action| self.position(a) is Some,
                |a: Action| self.actions[self.position(a).unwrap()].1@,
            ),
            total_samples: self.total_samples as nat,
        }
    }
}

impl Node {
    /// Where the record of an action stands.
    closed spec fn position(&self, action: Action) -> Option<int> {
        if exists|i: int| 0 <= i < self.actions.len() && (#[trigger] self.actions[i]).0 == action {
            Some(
                choose|i: int| 0 <= i < self.actions.len() && (#[trigger] self.actions[i]).0
                    == action,
            )
        } else {
            None
        }
    }

    /// No action has two records, and every record counts at least one sample and no more
    /// than the node has counted.
    pub closed spec fn wf(&self) -> bool {
        &&& self@.inv()
        &&& self.total_samples <= MAX_SAMPLES
        &&& forall|i: int, j: int|
            0 <= i < j < self.actions.len() ==> (#[trigger] self.actions[i]).0
                != (#[trigger] self.actions[j]).0
        &&& forall|i: int|
            0 <= i < self.actions.len() ==> 1 <= (#[trigger] self.actions[i]).1.num_samples
                <= self.total_samples && self.actions[i].1.reward_sum <= self.actions[i].1.num_samples
                * 0xffff_ffff
    }

    pub fn new() -> (node: Node)
        ensures
            node.wf(),
            node@ == NodeView::empty(),
    {
        let node = Node { actions: Vec::new(), total_samples: 0 };
        assert(node@.actions =~= Map::<Action, ArrowView>::empty());
        assert(node@.tried =~= Seq::<Action>::empty());
        node
    }

    /// The record of an action, if it was tried from here.
    pub fn arrow(&self, action: Action) -> (found: Option<Arrow>)
        requires
            self.wf(),
        ensures
            found is Some <==> self@.actions.contains_key(action),
            found is Some ==> found.unwrap()@ == self@.actions[action],
    {
        match self.find(action) {
            Some(i) => Some(self.actions[i].1),
            None => None,
        }
    }

    /// How often any action was tried from here.
    pub fn total_samples(&self) -> (n: u64)
        ensures
            n == self@.total_samples,
    {
        self.total_samples
    }

    fn find(&self, action: Action) -> (found: Option<usize>)
        requires
            self.wf(),
        ensures
            match found {
                Some(i) => i < self.actions.len() && self.actions[i as int].0 == action
                    && self.position(action) == Some(i as int),
                None => self.position(action) is None,
            },
    {
        let mut i: usize = 0;
        while i < self.actions.len()
            invariant
                i <= self.actions.len(),
                self.wf(),
                forall|k: int| 0 <= k < i ==> (#[trigger] self.actions[k]).0 != action,
            decreases self.actions.len() - i,
        {
            if self.actions[i].0 == action {
                proof {
                    let k = self.position(action).unwrap();
                    assert(self.actions[i as int].0 == action);
                    assert(k == i);
                }
                return Some(i);
            }
            i = i + 1;
        }
        None
    }

    /// Counts one more sample: `reward` followed `action`. The node must have room for it.
    pub fn add_sample(&mut self, action: Action, reward: u32)
        requires
            old(self).wf(),
            old(self)@.total_samples < MAX_SAMPLES,
        ensures
            final(self).wf(),
            final(self)@ == old(self)@.with_sample(action, reward),
    {
        let ghost before = *self;
        proof {
            lemma_with_sample_inv(self@, action, reward);
        }
        match self.find(action) {
            Some(i) => {
                let arrow = self.actions[i].1;
                assert(arrow.reward_sum + reward <= (arrow.num_samples + 1) * 0xffff_ffff)
                    by (nonlinear_arith)
                    requires
                        arrow.reward_sum <= arrow.num_samples * 0xffff_ffff,
                        reward <= 0xffff_ffff,
                ;
                self.actions[i] = (
                    action,
                    Arrow {
                        reward_sum: arrow.reward_sum + reward as u128,
                        num_samples: arrow.num_samples + 1,
                    },
                );
                self.total_samples = self.total_samples + 1;
                proof {
                    assert forall|a: Action| self.position(a) == before.position(a) by {
                        if before.position(a) is Some {
                            let k = before.position(a).unwrap();
                            assert(self.actions[k].0 == a);
                        }
                        if self.position(a) is Some {
                            let k = self.position(a).unwrap();
                            assert(before.actions[k].0 == a);
                        }
                    }
                    assert(self@.actions =~= before@.with_sample(action, reward).actions);
                    assert(self@.tried =~= before@.with_sample(action, reward).tried);
                }
            },
            None => {
                self.actions.push((action, Arrow { reward_sum: reward as u128, num_samples: 1 }));
                self.total_samples = self.total_samples + 1;
                proof {
                    let n = before.actions.len() as int;
                    assert(self.actions[n].0 == action);
                    assert forall|a: Action|
                        self.position(a) == (if a == action {
                            Some(n)
                        } else {
                            before.position(a)
                        }) by {
                        if a != action {
                            if before.position(a) is Some {
                                let k = before.position(a).unwrap();
                                assert(self.actions[k].0 == a);
                            }
                            if self.position(a) is Some {
                                let k = self.position(a).unwrap();
                                assert(before.actions[k].0 == a);
                            }
                        }
                    }
                    assert(self@.actions =~= before@.with_sample(action, reward).actions);
                    assert(self@.tried =~= before@.with_sample(action, reward).tried);
                }
            },
        }
    }

    /// A well-formed node has counted as many samples as its records together.
    pub proof fn lemma_inv(&self)
        requires
            self.wf(),
        ensures
            self@.inv(),
    {
    }

    /// The records of a node are what its view holds.
    proof fn lemma_records(&self)
        requires
            self.wf(),
        ensures
            forall|i: int|
                0 <= i < self.actions.len() ==> self@.actions.contains_key(
                    (#[trigger] self.actions[i]).0,
                ) && self@.actions[self.actions[i].0] == self.actions[i].1@,
            forall|a: Action| #[trigger]
                self@.actions.contains_key(a) ==> exists|i: int|
                    0 <= i < self.actions.len() && (#[trigger] self.actions[i]).0 == a,
            forall|a: Action| #[trigger] self@.actions.contains_key(a) ==> 1 <= self@.num_samples(a),
    {
        assert forall|i: int| 0 <= i < self.actions.len() implies self@.actions.contains_key(
            (#[trigger] self.actions[i]).0,
        ) && self@.actions[self.actions[i].0] == self.actions[i].1@ by {
            let a = self.actions[i].0;
            let k = self.position(a).unwrap();
            assert(k == i);
        }
        assert forall|a: Action| #[trigger] self@.actions.contains_key(a) implies 1
            <= self@.num_samples(a) by {
            let k = self.position(a).unwrap();
            assert(self.actions[k].0 == a);
        }
    }

    /// Whether an action was tried from here.
    pub fn is_empty(&self) -> (empty: bool)
        requires
            self.wf(),
        ensures
            empty == (forall|a: Action| !self@.actions.contains_key(a)),
    {
        proof {
            self.lemma_records();
            if self.actions.len() > 0 {
                assert(self@.actions.contains_key(self.actions[0].0));
            }
        }
        self.actions.len() == 0
    }

    /// The actions with the largest mean reward among those that were tried from here, in
    /// the order in which they were first tried.
    pub fn best_actions(&self) -> (best: Vec<Action>)
        requires
            self.wf(),
        ensures
            best@ == self@.best_of(self@.tried.len() as int),
            forall|k: int| 0 <= k < best.len() ==> self@.is_best(#[trigger] best[k]),
            forall|a: Action| self@.is_best(a) ==> best@.contains(a),
            (exists|a: Action| self@.actions.contains_key(a)) ==> best.len() > 0,
    {
        let mut best: Vec<Action> = Vec::new();
        if self.actions.len() == 0 {
            proof {
                self.lemma_records();
                assert forall|a: Action| !self@.actions.contains_key(a) by {
                    if self@.actions.contains_key(a) {
                        let i = choose|i: int|
                            0 <= i < self.actions.len() && (#[trigger] self.actions[i]).0 == a;
                    }
                }
            }
            return best;
        }
        let top = self.leader();
        let ghost tried = self@.tried;
        let mut i: usize = 0;
        proof {
            self.lemma_records();
        }
        while i < self.actions.len()
            invariant
                i <= self.actions.len(),
                self.wf(),
                top < self.actions.len(),
                tried == self@.tried,
                tried.len() == self.actions.len(),
                forall|k: int|
                    0 <= k < self.actions.len() ==> self.actions[top as int].1@.at_least(
                        (#[trigger] self.actions[k]).1@,
                    ),
                best@ == self@.best_of(i as int),
            decreases self.actions.len() - i,
        {
            let arrow = self.actions[i].1;
            let leader = self.actions[top].1;
            assert(arrow.reward_sum * leader.num_samples <= 0xffff_ffff * 0xffff_ffff_ffff
                * 0xffff_ffff_ffff && leader.reward_sum * arrow.num_samples <= 0xffff_ffff
                * 0xffff_ffff_ffff * 0xffff_ffff_ffff) by (nonlinear_arith)
                requires
                    arrow.reward_sum <= arrow.num_samples * 0xffff_ffff,
                    leader.reward_sum <= leader.num_samples * 0xffff_ffff,
                    arrow.num_samples <= 0xffff_ffff_ffff,
                    leader.num_samples <= 0xffff_ffff_ffff,
            ;
            let ours: u128 = arrow.reward_sum * (leader.num_samples as u128);
            let theirs: u128 = leader.reward_sum * (arrow.num_samples as u128);
            proof {
                self.lemma_leads(top as int, i as int);
                assert(tried[i as int] == self.actions[i as int].0);
            }
            if ours >= theirs {
                best.push(self.actions[i].0);
            }
            i = i + 1;
        }
        proof {
            crate::seq_facts::lemma_take_all(tried);
            assert forall|k: int| 0 <= k < best.len() implies self@.is_best(#[trigger] best[k]) by {
                lemma_best_of(self@, tried.len() as int, best[k]);
                assert(best@.contains(best[k]));
            }
            assert forall|a: Action| self@.is_best(a) implies best@.contains(a) by {
                lemma_best_of(self@, tried.len() as int, a);
                let j = choose|j: int|
                    0 <= j < self.actions.len() && (#[trigger] self.actions[j]).0 == a;
                assert(tried[j] == a);
                assert(tried.contains(a));
            }
            self.lemma_leads(top as int, top as int);
            lemma_best_of(self@, tried.len() as int, self.actions[top as int].0);
            assert(tried[top as int] == self.actions[top as int].0);
            assert(tried.contains(self.actions[top as int].0));
        }
        best
    }

    /// The place of a record with the largest mean reward: of the first, if there are more.
    fn leader(&self) -> (top: usize)
        requires
            self.wf(),
            self.actions.len() > 0,
        ensures
            top < self.actions.len(),
            forall|k: int|
                0 <= k < self.actions.len() ==> self.actions[top as int].1@.at_least(
                    (#[trigger] self.actions[k]).1@,
                ),
    {
        let mut top: usize = 0;
        let mut i: usize = 1;
        while i < self.actions.len()
            invariant
                1 <= i <= self.actions.len(),
                self.wf(),
                top < i,
                forall|k: int|
                    0 <= k < i ==> self.actions[top as int].1@.at_least(
                        (#[trigger] self.actions[k]).1@,
                    ),
            decreases self.actions.len() - i,
        {
            let arrow = self.actions[i].1;
            let leader = self.actions[top].1;
            assert(arrow.reward_sum * leader.num_samples <= 0xffff_ffff * 0xffff_ffff_ffff
                * 0xffff_ffff_ffff && leader.reward_sum * arrow.num_samples <= 0xffff_ffff
                * 0xffff_ffff_ffff * 0xffff_ffff_ffff) by (nonlinear_arith)
                requires
                    arrow.reward_sum <= arrow.num_samples * 0xffff_ffff,
                    leader.reward_sum <= leader.num_samples * 0xffff_ffff,
                    arrow.num_samples <= 0xffff_ffff_ffff,
                    leader.num_samples <= 0xffff_ffff_ffff,
            ;
            let ours: u128 = arrow.reward_sum * (leader.num_samples as u128);
            let theirs: u128 = leader.reward_sum * (arrow.num_samples as u128);
            if ours > theirs {
                proof {
                    assert forall|k: int| 0 <= k < i + 1 implies self.actions[i as int].1@.at_least(
                        (#[trigger] self.actions[k]).1@,
                    ) by {
                        if k < i {
                            lemma_means_ordered(
                                self.actions[i as int].1@,
                                self.actions[top as int].1@,
                                self.actions[k].1@,
                            );
                        }
                    }
                }
                top = i;
            }
            i = i + 1;
        }
        top
    }

    /// An action is among the best exactly if its mean reward is at least that of a record
    /// that none is above.
    proof fn lemma_leads(&self, top: int, i: int)
        requires
            self.wf(),
            0 <= top < self.actions.len(),
            0 <= i < self.actions.len(),
            forall|k: int|
                0 <= k < self.actions.len() ==> self.actions[top].1@.at_least(
                    (#[trigger] self.actions[k]).1@,
                ),
        ensures
            self@.is_best(self.actions[i].0) <==> self.actions[i].1@.at_least(
                self.actions[top].1@,
            ),
    {
        self.lemma_records();
        let a = self.actions[i].0;
        if self.actions[i].1@.at_least(self.actions[top].1@) {
            assert forall|b: Action| #[trigger]
                self@.actions.contains_key(b) implies self@.mean_at_least(a, b) by {
                let m = choose|m: int|
                    0 <= m < self.actions.len() && (#[trigger] self.actions[m]).0 == b;
                lemma_means_ordered(
                    self.actions[i].1@,
                    self.actions[top].1@,
                    self.actions[m].1@,
                );
            }
        }
        if self@.is_best(a) {
            assert(self@.actions.contains_key(self.actions[top].0));
            assert(self@.mean_at_least(a, self.actions[top].0));
        }
    }

    /// The legal actions that were not tried from here.
    pub fn unexplored(&self, legal_actions: &[Action]) -> (unexplored_actions: Vec<Action>)
        requires
            self.wf(),
        ensures
            unexplored_actions@ == untried(self@, legal_actions@),
    {
        let mut unexplored_actions: Vec<Action> = Vec::new();
        let mut i: usize = 0;
        assert(legal_actions@.take(0) =~= Seq::<Action>::empty());
        while i < legal_actions.len()
            invariant
                i <= legal_actions.len(),
                self.wf(),
                unexplored_actions@ == untried(self@, legal_actions@.take(i as int)),
            decreases legal_actions.len() - i,
        {
            assert(legal_actions@.take(i as int + 1).drop_last() =~= legal_actions@.take(
                i as int,
            ));
            let a = legal_actions[i];
            if self.find(a).is_none() {
                unexplored_actions.push(a);
            }
            i = i + 1;
        }
        assert(legal_actions@.take(legal_actions.len() as int) =~= legal_actions@);
        unexplored_actions
    }

    /// The grade that `exploration` gives to the record of each legal action.
    pub fn grades<G: Fn(u128, u64, u64) -> u64>(
        &self,
        legal_actions: &[Action],
        exploration: &G,
    ) -> (grades: Vec<u64>)
        requires
            self.wf(),
            forall|sum: u128, n: u64, total: u64| call_requires(*exploration, (sum, n, total)),
        ensures
            graded(self@, legal_actions@, exploration, grades@),
    {
        let mut grades: Vec<u64> = Vec::new();
        let mut i: usize = 0;
        while i < legal_actions.len()
            invariant
                i <= legal_actions.len(),
                self.wf(),
                forall|sum: u128, n: u64, total: u64| call_requires(*exploration, (sum, n, total)),
                grades.len() == i,
                forall|k: int|
                    0 <= k < i ==> call_ensures(
                        *exploration,
                        (
                            self@.reward_sum(legal_actions@[k]) as u128,
                            self@.num_samples(legal_actions@[k]) as u64,
                            self@.total_samples as u64,
                        ),
                        #[trigger] grades[k],
                    ),
            decreases legal_actions.len() - i,
        {
            let (sum, n) = match self.find(legal_actions[i]) {
                Some(k) => (self.actions[k].1.reward_sum, self.actions[k].1.num_samples),
                None => (0, 0),
            };
            let grade = exploration(sum, n, self.total_samples);
            grades.push(grade);
            i = i + 1;
        }
        grades
    }

    /// Picks the action to try next from here: one of the legal actions that were not tried
    /// yet, if there is one; else one of those to whose record `exploration` gives the
    /// largest grade. Among several the choice is uniformly random.
    pub fn select<G: Fn(u128, u64, u64) -> u64>(
        &self,
        legal_actions: &[Action],
        exploration: &G,
        rng: &mut StdRng,
    ) -> (chosen: Action)
        requires
            self.wf(),
            legal_actions.len() > 0,
            forall|sum: u128, n: u64, total: u64| call_requires(*exploration, (sum, n, total)),
        ensures
            legal_actions@.contains(chosen),
            may_select(self@, legal_actions@, exploration, chosen),
    {
        let unexplored_actions = self.unexplored(legal_actions);
        if unexplored_actions.len() == 0 {
            let grades = self.grades(legal_actions, exploration);
            let best_actions = best_positions(&grades);
            let index = random_index(best_actions.len(), rng);
            let chosen = legal_actions[best_actions[index]];
            proof {
                assert(is_top(grades@, best_actions[index as int] as int));
            }
            chosen
        } else {
            let index = random_index(unexplored_actions.len(), rng);
            let chosen = unexplored_actions[index];
            proof {
                assert(unexplored_actions@.contains(chosen));
                lemma_untried(self@, legal_actions@, chosen);
            }
            chosen
        }
    }
}

/// What a search holds: the game it starts from, and what it has learned about the states
/// it came through, by the key of each state's fingerprint.
pub struct MctsView {
    pub root: GameView,
    pub nodes: Map<u64, NodeView>,
    /// How many samples the search has taken in; no node has counted more.
    pub samples: nat,
}

/// What one sample adds to what a search has learned: `reward` followed `action` in the
/// state with the key `hash`.
pub open spec fn record(nodes: Map<u64, NodeView>, hash: u64, action: Action, reward: u32) -> Map<
    u64,
    NodeView,
> {
    nodes.insert(
        hash,
        (if nodes.contains_key(hash) {
            nodes[hash]
        } else {
            NodeView::empty()
        }).with_sample(action, reward),
    )
}

/// What a playout adds to what a search has learned: `reward` followed each of its steps.
pub open spec fn recorded(nodes: Map<u64, NodeView>, updates: Seq<(u64, Action)>, reward: u32) -> Map<
    u64,
    NodeView,
>
    decreases updates.len(),
{
    if updates.len() == 0 {
        nodes
    } else {
        record(
            recorded(nodes, updates.drop_last(), reward),
            updates.last().0,
            updates.last().1,
            reward,
        )
    }
}

/// Whether `filled` is the game `s` with a face for every card in a hand: nothing but faces
/// was added, every face agrees with what the clues disclosed, and no face is there too often.
pub open spec fn fills(s: GameView, filled: GameView) -> bool {
    &&& filled == (GameView { card_map: filled.card_map, ..s })
    &&& s.card_map.submap_of(filled.card_map)
    &&& filled.inv()
    &&& filled.within_deck()
    &&& forall|p: Player| filled.all_known(#[trigger] filled.hand(p))
}

/// What was learned stays, and every step of a playout that is taken in has a node.
pub proof fn lemma_recorded_keys(nodes: Map<u64, NodeView>, updates: Seq<(u64, Action)>, reward: u32)
    ensures
        forall|k: u64| nodes.contains_key(k) ==> #[trigger] recorded(
            nodes,
            updates,
            reward,
        ).contains_key(k),
        forall|i: int|
            0 <= i < updates.len() ==> recorded(nodes, updates, reward).contains_key(
                (#[trigger] updates[i]).0,
            ),
    decreases updates.len(),
{
    if updates.len() > 0 {
        lemma_recorded_keys(nodes, updates.drop_last(), reward);
        let earlier = recorded(nodes, updates.drop_last(), reward);
        assert forall|k: u64| nodes.contains_key(k) implies #[trigger] recorded(
            nodes,
            updates,
            reward,
        ).contains_key(k) by {
            assert(earlier.contains_key(k));
        }
        assert forall|i: int| 0 <= i < updates.len() implies recorded(
            nodes,
            updates,
            reward,
        ).contains_key((#[trigger] updates[i]).0) by {
            if i < updates.len() - 1 {
                assert(updates.drop_last()[i] == updates[i]);
            }
        }
    }
}

/// Why a playout came to no result.
#[derive(Debug, Clone, Copy, PartialEq, Eq, Structural)]
pub enum PlayoutError {
    /// The cards of unknown face could not be given faces.
    Determinize(DeterminizeError),
    /// The game went on, but the player to move had no legal action.
    NoLegalAction,
}

/// A search for the best action in one state of the game, as the player to move sees it.
///
/// The nodes are kept by the 64-bit key of the state's fingerprint, not by the fingerprint
/// itself. Two states with the same key share a node; the search does not tell them apart.
///
/// `exploration` grades an action's record at a node for the choice of the action to try
/// next: it is given the sum of the rewards that followed the action there, how often the
/// action was tried there, and how often any action was. The larger grade wins.
pub struct MctsState<G> {
    root: GameState,
    exploration: G,
    nodes: HashMap<u64, Node>,
    samples: u64,
}

impl<G: Fn(u128, u64, u64) -> u64> View for MctsState<G> {
    type V = MctsView;

    closed spec fn view(&self) -> MctsView {
        MctsView {
            root: self.root@,
            nodes: self.nodes@.map_values(|node: Node| node@),
            samples: self.samples as nat,
        }
    }
}

impl<G: Fn(u128, u64, u64) -> u64> MctsState<G> {
    /// The game at the root is going and knows no face too often, `exploration` can grade
    /// every record, and every node is well formed and holds a record.
    pub closed spec fn wf(&self) -> bool {
        &&& self.root@.in_play()
        &&& self.root@.within_deck()
        &&& self.samples <= MAX_SAMPLES
        &&& forall|k: u64| #[trigger]
            self.nodes@.contains_key(k) ==> self.nodes@[k]@.total_samples <= self.samples
        &&& forall|sum: u128, n: u64, total: u64| call_requires(self.exploration, (sum, n, total))
        &&& forall|k: u64| #[trigger]
            self.nodes@.contains_key(k) ==> self.nodes@[k].wf() && exists|a: Action|
                self.nodes@[k]@.actions.contains_key(a)
    }

    /// The key of the root's fingerprint.
    pub open spec fn root_key(&self) -> u64 {
        digest_of(self@.root.fingerprint())
    }

    /// The function that grades the records.
    pub closed spec fn exploration(&self) -> G {
        self.exploration
    }

    /// Whether a playout may choose `chosen` in the state `s`: the rules offer it there, and
    /// if the search has a node for the state, the node may select it.
    pub open spec fn may_choose(&self, s: GameView, chosen: Action) -> bool {
        &&& s.offers(chosen)
        &&& self@.nodes.contains_key(digest_of(s.fingerprint())) ==> may_select(
            self@.nodes[digest_of(s.fingerprint())],
            s.legal_actions(),
            &self.exploration(),
            chosen,
        )
    }

    /// Whether `updates` and `reward` are the steps and the score of a game that was played
    /// to its end from `s`: every step holds the key of the fingerprint of the state it was
    /// taken in and an action that a playout may choose there; the action was carried out on
    /// that state with its hands filled; the next step was taken in what the player to move
    /// then saw; and the last action ended the game with the score `reward`.
    #[verifier::opaque]
    pub open spec fn plays_out(&self, s: GameView, updates: Seq<(u64, Action)>, reward: u32) -> bool
        decreases updates.len(),
    {
        &&& updates.len() > 0
        &&& updates[0].0 == digest_of(s.fingerprint())
        &&& self.may_choose(s, updates[0].1)
        &&& exists|filled: GameView| #[trigger]
            fills(s, filled) && (match filled.step(updates[0].1).1 {
                Outcome::Finished(score) => updates.len() == 1 && reward == score,
                Outcome::Acted(_) => self.plays_out(
                    filled.step(updates[0].1).0.seen_by(filled.step(updates[0].1).0.current_turn),
                    updates.drop_first(),
                    reward,
                ),
                _ => false,
            })
    }

    /// Whether `steps` are the first steps of a playout from `s` that has come to the state
    /// `t`: every step holds the key of the fingerprint of the state it was taken in and an
    /// action that a playout may choose there; the action was carried out on that state with
    /// its hands filled, and the game went on; the next step was taken in what the player to
    /// move then saw; and after the last step that is `t`.
    #[verifier::opaque]
    pub open spec fn plays_to(&self, s: GameView, steps: Seq<(u64, Action)>, t: GameView) -> bool
        decreases steps.len(),
    {
        if steps.len() == 0 {
            t == s
        } else {
            &&& steps[0].0 == digest_of(s.fingerprint())
            &&& self.may_choose(s, steps[0].1)
            &&& exists|filled: GameView| #[trigger]
                fills(s, filled) && filled.step(steps[0].1).1 is Acted && self.plays_to(
                    filled.step(steps[0].1).0.seen_by(filled.step(steps[0].1).0.current_turn),
                    steps.drop_first(),
                    t,
                )
        }
    }

    /// A playout that has taken no step is where it began.
    pub proof fn lemma_plays_to_start(&self, s: GameView)
        ensures
            self.plays_to(s, Seq::empty(), s),
    {
        reveal(MctsState::plays_to);
    }

    /// A playout that has come to a state and takes a step there that leaves the game going
    /// has come to what the next player sees.
    pub proof fn lemma_plays_to_step(
        &self,
        root: GameView,
        steps: Seq<(u64, Action)>,
        s: GameView,
        filled: GameView,
        action: Action,
    )
        requires
            self.plays_to(root, steps, s),
            self.may_choose(s, action),
            fills(s, filled),
            filled.step(action).1 is Acted,
        ensures
            self.plays_to(
                root,
                steps.push((digest_of(s.fingerprint()), action)),
                filled.step(action).0.seen_by(filled.step(action).0.current_turn),
            ),
        decreases steps.len(),
    {
        reveal(MctsState::plays_to);
        let step = (digest_of(s.fingerprint()), action);
        let next = filled.step(action).0.seen_by(filled.step(action).0.current_turn);
        let longer = steps.push(step);
        if steps.len() == 0 {
            assert(longer[0] == step);
            assert(longer.drop_first() =~= Seq::<(u64, Action)>::empty());
            assert(self.plays_to(next, longer.drop_first(), next));
        } else {
            let first = choose|first: GameView| #[trigger]
                fills(root, first) && first.step(steps[0].1).1 is Acted && self.plays_to(
                    first.step(steps[0].1).0.seen_by(first.step(steps[0].1).0.current_turn),
                    steps.drop_first(),
                    s,
                );
            let second = first.step(steps[0].1).0.seen_by(first.step(steps[0].1).0.current_turn);
            self.lemma_plays_to_step(second, steps.drop_first(), s, filled, action);
            assert(longer[0] == steps[0]);
            assert(longer.drop_first() =~= steps.drop_first().push(step));
        }
    }

    /// A playout that went on from the state after a step is a playout from the state
    /// before.
    pub proof fn lemma_plays_out_step(
        &self,
        s: GameView,
        filled: GameView,
        action: Action,
        rest: Seq<(u64, Action)>,
        reward: u32,
    )
        requires
            self.may_choose(s, action),
            fills(s, filled),
            filled.step(action).1 is Acted,
            self.plays_out(
                filled.step(action).0.seen_by(filled.step(action).0.current_turn),
                rest,
                reward,
            ),
        ensures
            self.plays_out(s, seq![(digest_of(s.fingerprint()), action)] + rest, reward),
    {
        reveal(MctsState::plays_out);
        let updates = seq![(digest_of(s.fingerprint()), action)] + rest;
        assert(updates[0] == (digest_of(s.fingerprint()), action));
        assert(updates.drop_first() =~= rest);
    }

    /// A step that ends the game is a playout.
    pub proof fn lemma_plays_out_last(
        &self,
        s: GameView,
        filled: GameView,
        action: Action,
        reward: u32,
    )
        requires
            self.may_choose(s, action),
            fills(s, filled),
            filled.step(action).1 == Outcome::Finished(reward as i8),
            reward <= 25,
        ensures
            self.plays_out(s, seq![(digest_of(s.fingerprint()), action)], reward),
    {
        reveal(MctsState::plays_out);
        let updates = seq![(digest_of(s.fingerprint()), action)];
        assert(updates[0] == (digest_of(s.fingerprint()), action));
    }

    /// Steps that are taken after others from where those have led go on from where those
    /// began.
    pub proof fn lemma_plays_out_extends(
        &self,
        root: GameView,
        s: GameView,
        steps: Seq<(u64, Action)>,
        filled: GameView,
        action: Action,
    )
        requires
            forall|rest: Seq<(u64, Action)>, reward: u32| #[trigger]
                self.plays_out(s, rest, reward) ==> self.plays_out(root, steps + rest, reward),
            self.may_choose(s, action),
            fills(s, filled),
            filled.step(action).1 is Acted,
        ensures
            forall|rest: Seq<(u64, Action)>, reward: u32| #[trigger]
                self.plays_out(
                    filled.step(action).0.seen_by(filled.step(action).0.current_turn),
                    rest,
                    reward,
                ) ==> self.plays_out(
                    root,
                    steps.push((digest_of(s.fingerprint()), action)) + rest,
                    reward,
                ),
    {
        let hash = digest_of(s.fingerprint());
        let next = filled.step(action).0.seen_by(filled.step(action).0.current_turn);
        assert forall|rest: Seq<(u64, Action)>, reward: u32| #[trigger]
            self.plays_out(next, rest, reward) implies self.plays_out(
            root,
            steps.push((hash, action)) + rest,
            reward,
        ) by {
            self.lemma_plays_out_step(s, filled, action, rest, reward);
            assert(self.plays_out(root, steps + (seq![(hash, action)] + rest), reward));
            assert(steps + (seq![(hash, action)] + rest) =~= steps.push((hash, action)) + rest);
        }
    }

    pub fn new(root: GameState, exploration: G) -> (state: MctsState<G>)
        requires
            root@.in_play(),
            root@.within_deck(),
            forall|sum: u128, n: u64, total: u64| call_requires(exploration, (sum, n, total)),
        ensures
            state.wf(),
            state@ == (MctsView { root: root@, nodes: Map::empty(), samples: 0 }),
            state.exploration() == exploration,
    {
        let state = MctsState { root, exploration, nodes: HashMap::new(), samples: 0 };
        assert(state@.nodes =~= Map::<u64, NodeView>::empty());
        state
    }

    /// How many samples the search has taken in.
    pub fn samples(&self) -> (n: u64)
        ensures
            n == self@.samples,
    {
        self.samples
    }

    /// Whether the search has a sample for the root.
    pub fn has_samples(&self) -> (known: bool)
        requires
            self.wf(),
        ensures
            known == self@.nodes.contains_key(self.root_key()),
    {
        let hash = self.root.fingerprint().digest();
        self.nodes.contains_key(&hash)
    }

    /// One of the actions with the largest mean reward at the root; among several the choice
    /// is uniformly random.
    pub fn choose_action(&self, rng: &mut StdRng) -> (chosen: Action)
        requires
            self.wf(),
            self@.nodes.contains_key(self.root_key()),
        ensures
            self@.nodes[self.root_key()].is_best(chosen),
    {
        let root_fingerprint = self.root.fingerprint();
        let hash = root_fingerprint.digest();
        match self.nodes.get(&hash) {
            Some(root_node) => {
                let best_actions = root_node.best_actions();
                let index = random_index(best_actions.len(), rng);
                best_actions[index]
            },
            None => unreached(),
        }
    }

    /// Plays one game to its end from the root, with faces drawn afresh for the cards of
    /// unknown face before every action, and hands back the steps it took, each as the key of
    /// the state's fingerprint and the action chosen there, and the score it reached.
    ///
    /// At a state of which the search has a node the node selects the action; elsewhere the
    /// action is drawn uniformly from the legal ones.
    ///
    /// A playout comes to no result only in a state that it has come to by its steps: where
    /// the player to move has no legal action, which does not happen in a game that was dealt
    /// four cards each and ends by its final round; where the faces for cards about which
    /// something was disclosed were drawn in vain `MAX_ATTEMPTS` times; or, in a game of more
    /// than fifty cards, where there are not faces enough. On the final turn, with nothing
    /// disclosed about a card of unknown face, the result is owed.
    pub fn run_playout(&self, rng: &mut StdRng) -> (result: Result<
        (Vec<(u64, Action)>, u32),
        PlayoutError,
    >)
        requires
            self.wf(),
        ensures
            result matches Ok((updates, reward)) ==> {
                &&& reward <= 25
                &&& 0 < updates.len() <= self@.root.moves_left()
                &&& updates[0].0 == self.root_key()
                &&& self.plays_out(self@.root, updates@, reward)
            },
            self@.root.legal_actions().len() == 0 ==> result == Err::<
                (Vec<(u64, Action)>, u32),
                PlayoutError,
            >(PlayoutError::NoLegalAction),
            result == Err::<(Vec<(u64, Action)>, u32), PlayoutError>(PlayoutError::NoLegalAction)
                ==> exists|steps: Seq<(u64, Action)>, t: GameView| #[trigger]
                self.plays_to(self@.root, steps, t) && t.legal_actions().len() == 0,
            result == Err::<(Vec<(u64, Action)>, u32), PlayoutError>(
                PlayoutError::Determinize(DeterminizeError::Exhausted),
            ) ==> exists|steps: Seq<(u64, Action)>, t: GameView| #[trigger]
                self.plays_to(self@.root, steps, t) && t.has_prior(
                    Map::<usize, Vec<WeightedCard>>::empty(),
                ),
            result == Err::<(Vec<(u64, Action)>, u32), PlayoutError>(
                PlayoutError::Determinize(DeterminizeError::NotEnoughCards),
            ) ==> exists|steps: Seq<(u64, Action)>, t: GameView| #[trigger]
                self.plays_to(self@.root, steps, t) && numbers(t.unknown_cards()).len()
                    > t.remaining_total(),
            self@.root.legal_actions().len() > 0 && !self@.root.has_prior(
                Map::<usize, Vec<WeightedCard>>::empty(),
            ) && self@.root.total_cards() <= 50 && self@.root.final_turn == Some(
                self@.root.current_turn,
            ) ==> result is Ok,
            self@.root.hands_held() && self@.root.ends_by_final_round() ==> result != Err::<
                (Vec<(u64, Action)>, u32),
                PlayoutError,
            >(PlayoutError::NoLegalAction),
            self@.root.hands_held() && self@.root.ends_by_final_round() && self@.root.total_cards()
                <= 50 ==> result is Ok || result == Err::<(Vec<(u64, Action)>, u32), PlayoutError>(
                PlayoutError::Determinize(DeterminizeError::Exhausted),
            ),
            result != Err::<(Vec<(u64, Action)>, u32), PlayoutError>(
                PlayoutError::Determinize(DeterminizeError::UnusablePrior),
            ),
            self@.root.total_cards() <= 50 ==> result != Err::<
                (Vec<(u64, Action)>, u32),
                PlayoutError,
            >(PlayoutError::Determinize(DeterminizeError::NotEnoughCards)),
    {
        let mut updates: Vec<(u64, Action)> = Vec::new();
        let mut current_state = self.root.clone();
        proof {
            assert forall|rest: Seq<(u64, Action)>, reward: u32| #[trigger]
                self.plays_out(current_state@, rest, reward) implies self.plays_out(
                self@.root,
                updates@ + rest,
                reward,
            ) by {
                assert(updates@ + rest =~= rest);
            }
            self.lemma_plays_to_start(self@.root);
        }
        loop
            invariant
                self.wf(),
                self.plays_to(self@.root, updates@, current_state@),
                self@.root.hands_held() ==> current_state@.hands_held(),
                self@.root.hands_held() && self@.root.ends_by_final_round()
                    ==> current_state@.ends_by_final_round(),
                updates.len() > 0 ==> self@.root.final_turn != Some(self@.root.current_turn),
                current_state@.in_play(),
                current_state@.within_deck(),
                updates.len() == 0 ==> current_state@ == self@.root,
                updates.len() > 0 ==> self@.root.legal_actions().len() > 0 && updates[0].0
                    == self.root_key(),
                current_state@.total_cards() == self@.root.total_cards(),
                updates.len() + current_state@.moves_left() <= self@.root.moves_left(),
                forall|rest: Seq<(u64, Action)>, reward: u32| #[trigger]
                    self.plays_out(current_state@, rest, reward) ==> self.plays_out(
                        self@.root,
                        updates@ + rest,
                        reward,
                    ),
            decreases current_state@.moves_left(),
        {
            let ghost before = current_state@;
            let ghost steps = updates@;
            let (hash, action, outcome) = match self.advance(&mut current_state, rng) {
                Ok(step) => step,
                Err(e) => {
                    assert(self.plays_to(self@.root, steps, before));
                    return Err(e);
                },
            };
            updates.push((hash, action));
            let ghost filled = choose|filled: GameView| #[trigger]
                fills(before, filled) && (match outcome {
                    Some(score) => filled.step(action).1 == Outcome::Finished(score as i8),
                    None => filled.step(action).1 is Acted && current_state@ == filled.step(
                        action,
                    ).0.seen_by(filled.step(action).0.current_turn),
                });
            match outcome {
                Some(score) => {
                    proof {
                        self.lemma_plays_out_last(before, filled, action, score);
                        assert(steps + seq![(hash, action)] =~= updates@);
                    }
                    return Ok((updates, score));
                },
                None => {
                    proof {
                        self.lemma_plays_out_extends(self@.root, before, steps, filled, action);
                        self.lemma_plays_to_step(self@.root, steps, before, filled, action);
                    }
                },
            }
        }
    }

    /// Takes one step of a playout in `state`: chooses an action, draws faces for the cards
    /// of unknown face, carries the action out and, unless that ends the game, goes over to
    /// what the next player sees. Hands back the key of the state's fingerprint, the action,
    /// and the score if the game has ended.
    fn advance(&self, state: &mut GameState, rng: &mut StdRng) -> (result: Result<
        (u64, Action, Option<u32>),
        PlayoutError,
    >)
        requires
            self.wf(),
            old(state)@.in_play(),
            old(state)@.within_deck(),
        ensures
            match result {
                Ok((hash, action, outcome)) => {
                    &&& hash == digest_of(old(state)@.fingerprint())
                    &&& self.may_choose(old(state)@, action)
                    &&& old(state)@.legal_actions().len() > 0
                    &&& exists|filled: GameView| #[trigger]
                        fills(old(state)@, filled) && (match outcome {
                            Some(score) => filled.step(action).1 == Outcome::Finished(score as i8),
                            None => filled.step(action).1 is Acted && final(state)@
                                == filled.step(action).0.seen_by(
                                filled.step(action).0.current_turn,
                            ),
                        })
                    &&& match outcome {
                        Some(score) => score <= 25,
                        None => {
                            &&& old(state)@.final_turn != Some(old(state)@.current_turn)
                            &&& old(state)@.hands_held() ==> final(state)@.hands_held() && (old(
                                state,
                            )@.ends_by_final_round() ==> final(state)@.ends_by_final_round())
                            &&& final(state)@.in_play()
                            &&& final(state)@.within_deck()
                            &&& final(state)@.total_cards() == old(state)@.total_cards()
                            &&& final(state)@.moves_left() < old(state)@.moves_left()
                        },
                    }
                },
                Err(PlayoutError::NoLegalAction) => {
                    &&& old(state)@.legal_actions().len() == 0
                    &&& !(old(state)@.hands_held() && old(state)@.ends_by_final_round())
                },
                Err(PlayoutError::Determinize(e)) => {
                    &&& old(state)@.legal_actions().len() > 0
                    &&& e != DeterminizeError::UnusablePrior
                    &&& old(state)@.total_cards() <= 50 ==> e != DeterminizeError::NotEnoughCards
                    &&& e == DeterminizeError::Exhausted ==> old(state)@.has_prior(
                        Map::<usize, Vec<WeightedCard>>::empty(),
                    )
                    &&& e == DeterminizeError::NotEnoughCards ==> numbers(
                        old(state)@.unknown_cards(),
                    ).len() > old(state)@.remaining_total()
                },
            },
            old(state)@.legal_actions().len() > 0 && !old(state)@.has_prior(
                Map::<usize, Vec<WeightedCard>>::empty(),
            ) && old(state)@.total_cards() <= 50 ==> result is Ok,
    {
        let ghost before = state@;
        let fingerprint = state.fingerprint();
        let hash = fingerprint.digest();
        let legal_actions = state.legal_actions();
        if legal_actions.len() == 0 {
            proof {
                if before.hands_held() && before.ends_by_final_round() {
                    lemma_held_can_act(before);
                }
            }
            return Err(PlayoutError::NoLegalAction);
        }
        let action = match self.nodes.get(&hash) {
            Some(node) => node.select(legal_actions.as_slice(), &self.exploration, rng),
            None => {
                let index = match draw_index(legal_actions.len(), rng) {
                    Some(index) => index,
                    None => unreached(),
                };
                legal_actions[index]
            },
        };
        assert(before.legal_actions().contains(action));
        let priors: HashMap<usize, Vec<WeightedCard>> = HashMap::new();
        proof {
            assert(priors@ =~= Map::<usize, Vec<WeightedCard>>::empty());
            if before.total_cards() <= 50 {
                lemma_enough_cards(before);
            }
        }
        match state.determinize(&priors, rng) {
            Ok(()) => {},
            Err(e) => {
                return Err(PlayoutError::Determinize(e));
            },
        }
        let ghost filled = state@;
        proof {
            lemma_legal_actions(before, action);
            lemma_offered_is_carried_out(before, filled, action);
            lemma_step_progress(filled, action);
            assert(fills(before, filled));
            if filled.final_turn == Some(filled.current_turn) {
                lemma_final_turn_ends(filled, action);
            }
            if before.hands_held() {
                assert(filled.hands_held());
                if filled.step(action).1 is Acted {
                    lemma_step_held(filled, action);
                }
            }
        }
        match state.act(action) {
            ActionResult::Acted(_) => {
                state.reduce_to_current_view();
                Ok((hash, action, None))
            },
            ActionResult::Finished(score) => Ok((hash, action, Some(score as u32))),
            ActionResult::Illegal(_) => unreached(),
            ActionResult::Error(_) => unreached(),
        }
    }

    /// Takes in what a playout found: `result` followed each of its steps. The search must
    /// have room for the samples: it takes in `MAX_SAMPLES` at most.
    pub fn update(&mut self, updates: Vec<(u64, Action)>, result: u32)
        requires
            old(self).wf(),
            old(self)@.samples + updates.len() <= MAX_SAMPLES,
        ensures
            final(self).wf(),
            final(self)@ == (MctsView {
                nodes: recorded(old(self)@.nodes, updates@, result),
                samples: (old(self)@.samples + updates.len()) as nat,
                ..old(self)@
            }),
            final(self).exploration() == old(self).exploration(),
            forall|i: int|
                0 <= i < updates.len() ==> final(self)@.nodes.contains_key(
                    (#[trigger] updates[i]).0,
                ),
    {
        proof {
            lemma_recorded_keys(self@.nodes, updates@, result);
        }
        let mut i: usize = 0;
        assert(updates@.take(0) =~= Seq::<(u64, Action)>::empty());
        while i < updates.len()
            invariant
                i <= updates.len(),
                self.wf(),
                self.exploration() == old(self).exploration(),
                old(self)@.samples + updates.len() <= MAX_SAMPLES,
                self@ == (MctsView {
                    nodes: recorded(old(self)@.nodes, updates@.take(i as int), result),
                    samples: (old(self)@.samples + i) as nat,
                    ..old(self)@
                }),
            decreases updates.len() - i,
        {
            let (hash, action) = updates[i];
            let ghost before = self@.nodes;
            let mut node = match self.nodes.remove(&hash) {
                Some(node) => node,
                None => Node::new(),
            };
            let ghost earlier = node@;
            node.add_sample(action, result);
            proof {
                if before.contains_key(hash) {
                    let a = choose|a: Action| earlier.actions.contains_key(a);
                    assert(node@.actions.contains_key(a));
                } else {
                    assert(node@.actions.contains_key(action));
                }
            }
            self.nodes.insert(hash, node);
            self.samples = self.samples + 1;
            proof {
                assert(updates@.take(i as int + 1).drop_last() =~= updates@.take(i as int));
                assert(self@.nodes =~= record(before, hash, action, result));
            }
            i = i + 1;
        }
        assert(updates@.take(updates.len() as int) =~= updates@);
    }
}

} // verus!
