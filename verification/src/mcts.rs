//! Building blocks of the determinized Monte-Carlo tree search: random
//! rollouts over determinized positions, the search tree with its visit and
//! win counts, and the aggregation that picks the best-rated action.
//!
//! The tree works on fully determinized states (empty pool), where every
//! legal action is also executable. Selecting a child by the UCT score is
//! the caller's choice: the tree hands out the (wins, visits) statistics and
//! takes back the index of the chosen child.

use vstd::prelude::*;
use rand::rngs::StdRng;

use crate::cards::{Action, ActionKind, CardId, valid_id, slot_unknown, slot_id};
use crate::collection::distinct_ids;
use crate::collection::hand_unknowns;
use crate::game::GameState;
use crate::legal::{hand_has_concrete, missing_count, lemma_hand_unknowns_pos};
use crate::deal::{lemma_hands_unknowns_component};
use crate::rng::rng_below;

verus! {

/// In a throw whose cards all have concrete slots, nothing is missing.
pub proof fn lemma_missing_all_concrete(h: Seq<crate::cards::HandSlot>, t: Seq<CardId>)
    requires
        forall|i: int| 0 <= i < t.len() ==> hand_has_concrete(h, #[trigger] t[i]),
    ensures
        missing_count(h, t) == 0,
    decreases t.len(),
{
    if t.len() > 0 {
        assert(forall|i: int| 0 <= i < t.drop_last().len() ==> t.drop_last()[i] == t[i]);
        lemma_missing_all_concrete(h, t.drop_last());
        assert(t[t.len() - 1] == t.last());
    }
}

impl GameState {
    /// Legality reads the state only through its views, so it carries over
    /// from any value-for-value copy of a well-formed state.
    pub proof fn lemma_action_legal_same_views(a: GameState, b: GameState, act: Action)
        requires
            a.wf(),
            !a.is_end_state,
            GameState::same_views(a, b),
            a.action_legal(act),
        ensures
            b.action_legal(act),
    {
        assert(forall|q: int| 0 <= q < a.hands().len() ==> a.hand(q) == b.hand(q));
        assert(b.hand(b.defender as int) == a.hand(a.defender as int));
        assert(b.hand(b.player_to_play as int) == a.hand(a.player_to_play as int));
        if !a.is_end_state && a.attackers@.len() >= 1 {
            assert(b.reflect_target() == a.reflect_target());
            assert(b.hand(b.reflect_target()) == a.hand(a.reflect_target()));
        }
    }

    /// In a determinized state (empty pool), every legal action is
    /// executable: there is no unknown slot left that could get in the way.
    pub proof fn lemma_legal_executable(self, a: Action)
        requires
            self.wf(),
            !self.is_end_state,
            self.action_legal(a),
            self.pool().len() == 0,
        ensures
            self.action_executable(a),
    {
        assert forall|p: int|
            0 <= p < self.hands().len() implies hand_unknowns(#[trigger] self.hand(p)) == 0 by {
            lemma_hands_unknowns_component(self.hands(), p);
        }
        assert forall|p: int, id: CardId|
            0 <= p < self.hands().len() && #[trigger] self.in_poss(p, id) implies
            hand_has_concrete(self.hand(p), id) && valid_id(id) by {
            assert(hand_has_concrete(self.hand(p), id));
            let j = choose|j: int|
                0 <= j < self.hand(p).len() && !slot_unknown(#[trigger] self.hand(p)[j])
                    && slot_id(self.hand(p)[j]) == id;
            assert(self.slot_ok(self.hand(p)[j]));
        }
        if a.name == ActionKind::ThrowCards {
            assert forall|i: int|
                0 <= i < a.throw@.len() implies hand_has_concrete(
                self.hand(self.player_to_play as int),
                #[trigger] a.throw@[i],
            ) by {
                assert(self.in_poss(self.player_to_play as int, a.throw@[i]));
            }
            lemma_missing_all_concrete(self.hand(self.player_to_play as int), a.throw@);
            assert(distinct_ids(a.throw@)) by {
                assert forall|i: int, j: int|
                    0 <= i < j < a.throw@.len() implies a.throw@[i] != a.throw@[j] by {
                    assert(a.throw@[i].0 < a.throw@[j].0 || (a.throw@[i].0 == a.throw@[j].0
                        && a.throw@[i].1 < a.throw@[j].1));
                }
            }
        }
    }

    /// A uniformly random choice among the legal actions, or nothing when no
    /// action is offered.
    pub fn get_random_action(&self, rng: &mut StdRng) -> (r: Option<Action>)
        requires
            self.wf(),
            !self.is_end_state,
        ensures
            r matches Some(a) ==> self.action_legal(a),
            self.current_action == ActionKind::Defend || self.current_action
                == ActionKind::ThrowCards ==> r is Some,
            self.current_action == ActionKind::Attack && (self.pairs_finished@.len() > 0 || (
            self.hand(self.defender as int).len() > 0 && self.hand(
                self.player_to_play as int,
            ).len() > 0)) ==> r is Some,
    {
        let allowed = self.allowed_plays();
        if allowed.len() == 0 {
            return None;
        }
        let idx = rng_below(rng, allowed.len());
        let a = allowed[idx].clone();
        proof {
            assert(self.action_legal(allowed@[idx as int]));
            assert(self.action_legal(a)) by {
                assert(a.name == allowed@[idx as int].name && a.card == allowed@[idx as int].card
                    && a.throw@ == allowed@[idx as int].throw@);
            }
        }
        Some(a)
    }

    /// Play uniformly random legal actions until the game ends or the step
    /// budget runs out; reports whether a terminal state was reached. Used
    /// as the simulation phase of the search, on determinized states.
    pub fn random_playout(&mut self, rng: &mut StdRng, max_steps: u32) -> (done: bool)
        requires
            old(self).wf(),
            old(self).pool().len() == 0,
        ensures
            final(self).wf(),
            done == final(self).is_end_state,
            final(self).pool().len() == 0,
            final(self).num_players == old(self).num_players,
            old(self).is_end_state ==> done && *final(self) == *old(self),
    {
        let mut steps: u32 = 0;
        while steps < max_steps
            invariant
                self.wf(),
                self.pool().len() == 0,
                steps <= max_steps,
                self.num_players == old(self).num_players,
                old(self).is_end_state ==> *self == *old(self),
            decreases max_steps - steps,
        {
            if self.is_end_state {
                return true;
            }
            let choice = self.get_random_action(rng);
            match choice {
                None => {
                    return false;
                },
                Some(a) => {
                    proof {
                        self.lemma_legal_executable(a);
                    }
                    let ghost pre = *self;
                    self.execute_action(&a);
                    proof {
                        assert(self.pool().len() == 0) by {
                            if self.pool().len() > 0 {
                                assert(self.pool().contains(self.pool()[0]));
                                assert(pre.pool().contains(self.pool()[0]));
                            }
                        }
                    }
                },
            }
            steps = steps + 1;
        }
        self.is_end_state
    }
}

/// The node after one visit was credited: the visit count rises by one
/// (saturating at the counter's maximum), the win count rises exactly when
/// `won`, and nothing else changes.
pub open spec fn node_visited(pre: MCNode, post: MCNode, won: bool) -> bool {
    &&& post.n == (if pre.n < u32::MAX {
        (pre.n + 1) as u32
    } else {
        pre.n
    })
    &&& post.w == (if won && pre.w < u32::MAX {
        (pre.w + 1) as u32
    } else {
        pre.w
    })
    &&& node_same_shape(pre, post)
}

/// Everything but the two counters agrees.
pub open spec fn node_same_shape(pre: MCNode, post: MCNode) -> bool {
    &&& post.game_state == pre.game_state
    &&& post.is_end_state == pre.is_end_state
    &&& post.is_explored == pre.is_explored
    &&& post.children == pre.children
    &&& post.unexplored_children == pre.unexplored_children
}

/// A stepwise-climbing path climbs overall.
pub proof fn lemma_path_increasing(p: Seq<usize>, k: int)
    requires
        0 <= k < p.len(),
        forall|k2: int| 0 <= k2 < p.len() - 1 ==> (#[trigger] p[k2]) < p[k2 + 1],
    ensures
        forall|k2: int| 0 <= k2 < k ==> (#[trigger] p[k2]) < p[k],
    decreases k,
{
    if k > 0 {
        lemma_path_increasing(p, k - 1);
        assert(p[k - 1] < p[k]);
    }
}

/// One node of the search tree: a determinized position with its win and
/// visit counts, the explored children keyed by the action that led to them,
/// and the actions not yet expanded.
pub struct MCNode {
    /// Wins credited to the player whose move led into this node.
    pub w: u32,
    /// Visits.
    pub n: u32,
    /// Whether the node's position is terminal.
    pub is_end_state: bool,
    /// The position.
    pub game_state: GameState,
    /// Whether the legal actions were enumerated already.
    pub is_explored: bool,
    /// Explored children: the action played and the child's index in the
    /// tree's node arena.
    pub children: Vec<(Action, usize)>,
    /// Legal actions not yet expanded into children.
    pub unexplored_children: Vec<Action>,
}

/// The search tree: an arena of nodes with the root at index 0, plus the
/// path of node indices of the rollout in progress.
pub struct MCTree {
    pub nodes: Vec<MCNode>,
    pub path: Vec<usize>,
}

/// The per-node invariant: the position is a well-formed determinized
/// state, the terminal flag mirrors it, and every action stored on the node
/// (explored or not) is legal for the node's position. Kept opaque so that
/// the tree's quantifier over all nodes stays cheap; reveal it where a
/// node's facts are needed.
#[verifier::opaque]
pub open spec fn node_ok(nd: MCNode) -> bool {
    &&& nd.game_state.wf()
    &&& nd.game_state.pool().len() == 0
    &&& nd.is_end_state == nd.game_state.is_end_state
    &&& forall|c: int|
        0 <= c < nd.children@.len() ==> nd.game_state.action_legal(
            (#[trigger] nd.children@[c]).0,
        )
    &&& forall|u: int|
        0 <= u < nd.unexplored_children@.len() ==> nd.game_state.action_legal(
            #[trigger] nd.unexplored_children@[u],
        )
}

/// Crediting visits changes only the counters, which the node invariant
/// never reads.
pub proof fn lemma_node_ok_shape(a: MCNode, b: MCNode)
    requires
        node_ok(a),
        node_same_shape(a, b),
    ensures
        node_ok(b),
{
    reveal(node_ok);
}

impl MCTree {
    /// Every node index stored anywhere stays inside the arena and points
    /// up the arena, every node satisfies the node invariant, and the
    /// current rollout path starts at the root and climbs.
    pub open spec fn wf(self) -> bool {
        &&& self.nodes@.len() >= 1
        &&& forall|i: int, c: int|
            0 <= i < self.nodes@.len() && 0 <= c < self.nodes@[i].children@.len()
                ==> ((#[trigger] self.nodes@[i].children@[c]).1 as int) < self.nodes@.len()
                && (self.nodes@[i].children@[c].1 as int) > i
        &&& forall|i: int| 0 <= i < self.nodes@.len() ==> node_ok(#[trigger] self.nodes@[i])
        &&& self.path@.len() >= 1
        &&& forall|k: int| 0 <= k < self.path@.len() ==> (#[trigger] self.path@[k] as int) < self.nodes@.len()
        &&& self.path@[0] == 0
        &&& forall|k: int|
            0 <= k < self.path@.len() - 1 ==> (#[trigger] self.path@[k]) < self.path@[k + 1]
    }

    /// The node the current rollout stands on.
    pub open spec fn cur(self) -> int {
        self.path@[self.path@.len() - 1] as int
    }

    /// A fresh tree rooted at a determinized position.
    pub fn new(root_state: GameState) -> (t: MCTree)
        requires
            root_state.wf(),
            root_state.pool().len() == 0,
        ensures
            t.wf(),
            t.nodes@.len() == 1,
            t.nodes@[0].game_state == root_state,
            t.nodes@[0].w == 0,
            t.nodes@[0].n == 0,
            !t.nodes@[0].is_explored,
            t.nodes@[0].children@.len() == 0,
            t.nodes@[0].unexplored_children@.len() == 0,
            t.nodes@[0].is_end_state == root_state.is_end_state,
            t.path@.len() == 1,
    {
        let terminal = root_state.is_end_state;
        let root = MCNode {
            w: 0,
            n: 0,
            is_end_state: terminal,
            game_state: root_state,
            is_explored: false,
            children: Vec::new(),
            unexplored_children: Vec::new(),
        };
        let mut nodes: Vec<MCNode> = Vec::new();
        nodes.push(root);
        let mut path: Vec<usize> = Vec::new();
        path.push(0);
        let t = MCTree { nodes, path };
        proof {
            reveal(node_ok);
            assert(node_ok(t.nodes@[0]));
        }
        t
    }

    /// Start the next rollout from the root.
    pub fn begin_rollout(&mut self)
        requires
            old(self).wf(),
        ensures
            final(self).wf(),
            final(self).path@.len() == 1,
            final(self).nodes == old(self).nodes,
    {
        let mut path: Vec<usize> = Vec::new();
        path.push(0);
        self.path = path;
    }

    /// The node the rollout currently stands on.
    fn current(&self) -> (i: usize)
        requires
            self.wf(),
        ensures
            (i as int) < self.nodes@.len(),
            i == self.path@[self.path@.len() - 1],
    {
        self.path[self.path.len() - 1]
    }

    /// Whether selection must continue: the current node was already
    /// explored, is not terminal, and has no unexplored action left.
    pub fn needs_descend(&self) -> (r: bool)
        requires
            self.wf(),
        ensures
            r == ({
                let node = self.nodes@[self.cur()];
                node.is_explored && !node.is_end_state && node.unexplored_children@.len() == 0
                    && node.children@.len() > 0
            }),
    {
        let i = self.current();
        let node = &self.nodes[i];
        node.is_explored && !node.is_end_state && node.unexplored_children.len() == 0
            && node.children.len() > 0
    }

    /// The (wins, visits) statistics of the current node's children, in
    /// order, for the caller's selection rule, with the current node's own
    /// visit count.
    pub fn child_stats(&self) -> (r: (Vec<(u32, u32)>, u32))
        requires
            self.wf(),
        ensures
            r.0@.len() == self.nodes@[self.cur()].children@.len(),
            forall|c: int|
                0 <= c < r.0@.len() ==> #[trigger] r.0@[c] == (
                self.nodes@[self.nodes@[self.cur()].children@[c].1 as int].w,
                self.nodes@[self.nodes@[self.cur()].children@[c].1 as int].n,
                ),
            r.1 == self.nodes@[self.cur()].n,
    {
        let i = self.current();
        let mut stats: Vec<(u32, u32)> = Vec::new();
        let m = self.nodes[i].children.len();
        let mut c: usize = 0;
        while c < m
            invariant
                self.wf(),
                i as int == self.cur(),
                (i as int) < self.nodes@.len(),
                m == self.nodes@[i as int].children@.len(),
                c <= m,
                stats@.len() == c as int,
                forall|c2: int|
                    0 <= c2 < c as int ==> #[trigger] stats@[c2] == (
                    self.nodes@[self.nodes@[i as int].children@[c2].1 as int].w,
                    self.nodes@[self.nodes@[i as int].children@[c2].1 as int].n,
                    ),
            decreases m - c,
        {
            let child_idx = self.nodes[i].children[c].1;
            proof {
                assert((self.nodes@[i as int].children@[c as int].1 as int) < self.nodes@.len());
            }
            let child = &self.nodes[child_idx];
            stats.push((child.w, child.n));
            c = c + 1;
        }
        (stats, self.nodes[i].n)
    }

    /// Descend to the `k`-th child of the current node.
    pub fn descend(&mut self, k: usize)
        requires
            old(self).wf(),
            (k as int) < old(self).nodes@[old(self).path@[old(self).path@.len() - 1] as int].children@.len(),
        ensures
            final(self).wf(),
            final(self).nodes == old(self).nodes,
            final(self).path@ == old(self).path@.push(
                old(self).nodes@[old(self).cur()].children@[k as int].1,
            ),
    {
        let i = self.current();
        let next = self.nodes[i].children[k].1;
        self.path.push(next);
    }

    /// Expansion and simulation. At a terminal node the stored loser is
    /// reported and nothing changes; when selection must continue instead,
    /// nothing changes and nothing is reported. Otherwise the node's legal
    /// actions are enumerated on first visit and the first unexplored action
    /// is expanded: exactly one child node is appended, holding that action
    /// applied to the node's position and keyed under it in `children`, the
    /// path extends to the child, and a random playout from the child
    /// reports the loser — or nothing when the playout budget runs out.
    #[verifier::rlimit(100)]
    pub fn expand_or_finish(&mut self, rng: &mut StdRng, max_steps: u32) -> (loser: Option<u8>)
        requires
            old(self).wf(),
        ensures
            final(self).wf(),
            final(self).path@.len() >= old(self).path@.len(),
    {
        let i = self.current();
        proof {
            reveal(node_ok);
            assert(node_ok(self.nodes@[i as int]));
        }
        if self.nodes[i].is_end_state {
            return Some(self.nodes[i].game_state.loser_seat());
        }
        if self.nodes[i].is_explored && self.nodes[i].unexplored_children.len() == 0 {
            // selection has to continue (or the position offers no action)
            return None;
        }
        if !self.nodes[i].is_explored {
            let acts = self.nodes[i].game_state.allowed_plays();
            let node = &mut self.nodes[i];
            node.unexplored_children = acts;
            node.is_explored = true;
            proof {
                reveal(node_ok);
                assert(forall|q: int|
                    0 <= q < self.nodes@.len() && q != i as int ==> self.nodes@[q] == old(
                        self,
                    ).nodes@[q]);
                assert(node_ok(self.nodes@[i as int]));
            }
            if self.nodes[i].unexplored_children.len() == 0 {
                // the position offers no action at all: leave the node
                // explored and give the rollout up
                return None;
            }
        }
        let ghost mid = *self;
        let node = &mut self.nodes[i];
        let action = node.unexplored_children.remove(0);
        proof {
            assert(forall|q: int|
                0 <= q < self.nodes@.len() && q != i as int ==> self.nodes@[q] == mid.nodes@[q]);
            reveal(node_ok);
            assert(mid.nodes@[i as int].game_state.action_legal(action)) by {
                assert(mid.nodes@[i as int].unexplored_children@[0] == action);
            }
        }
        let mut child_state = self.nodes[i].game_state.duplicate();
        proof {
            GameState::lemma_same_views_wf(self.nodes[i as int].game_state, child_state);
            assert(child_state.pool().len() == 0);
            GameState::lemma_action_legal_same_views(
                self.nodes[i as int].game_state,
                child_state,
                action,
            );
            child_state.lemma_legal_executable(action);
        }
        let ghost dup = child_state;
        child_state.execute_action(&action);
        proof {
            crate::execute::lemma_step_view_compose(
                self.nodes[i as int].game_state,
                dup,
                action,
                child_state,
            );
            assert(child_state.pool().len() == 0) by {
                if child_state.pool().len() > 0 {
                    assert(child_state.pool().contains(child_state.pool()[0]));
                    assert(dup.pool().contains(child_state.pool()[0]));
                }
            }
        }
        let terminal = child_state.is_terminal();
        let loser_seat = child_state.loser_seat();
        let ghost child_post = child_state;
        let mut sim_state = child_state.duplicate();
        proof {
            GameState::lemma_same_views_wf(child_post, sim_state);
            assert(sim_state.pool().len() == 0);
        }
        let child = MCNode {
            w: 0,
            n: 0,
            is_end_state: terminal,
            game_state: child_state,
            is_explored: false,
            children: Vec::new(),
            unexplored_children: Vec::new(),
        };
        let new_idx = self.nodes.len();
        self.nodes.push(child);
        let ghost grown = *self;
        let node2 = &mut self.nodes[i];
        node2.children.push((action, new_idx));
        proof {
            assert(forall|q: int|
                0 <= q < self.nodes@.len() && q != i as int ==> self.nodes@[q] == grown.nodes@[q]);
        }
        self.path.push(new_idx);
        proof {
            reveal(node_ok);
            assert(node_ok(self.nodes@[new_idx as int]));
            assert(node_ok(self.nodes@[i as int])) by {
                assert(forall|c: int|
                    0 <= c < mid.nodes@[i as int].children@.len()
                        ==> #[trigger] self.nodes@[i as int].children@[c]
                        == mid.nodes@[i as int].children@[c]);
                assert(self.nodes@[i as int].children@.last() == (action, new_idx));
            }
            assert forall|q: int|
                0 <= q < self.nodes@.len() implies node_ok(#[trigger] self.nodes@[q]) by {
                if q != i as int && q != new_idx as int {
                    assert(self.nodes@[q] == old(self).nodes@[q]);
                }
            }
            assert(self.wf());
            assert(self.nodes@[i as int].children@ == old(self).nodes@[old(
                self,
            ).cur()].children@.push((action, new_idx)));
            // the reported loser, if any, stays a seat of the game
            assert(child_post.num_players == old(self).nodes@[old(
                self,
            ).cur()].game_state.num_players);
        }
        // simulate from the new child's position
        if terminal {
            return Some(loser_seat);
        }
        let done = sim_state.random_playout(rng, max_steps);
        if done {
            proof {
                assert((sim_state.loser as int) < sim_state.num_players as int);
            }
            Some(sim_state.loser_seat())
        } else {
            None
        }
    }

    /// Credit the rollout: every node on the path gains a visit
    /// (saturating), and a node gains a win when the player to move at its
    /// parent was not the loser. Without a loser only the path is reset.
    #[verifier::rlimit(100)]
    pub fn backpropagate(&mut self, loser: Option<u8>)
        requires
            old(self).wf(),
        ensures
            final(self).wf(),
            final(self).path@.len() == 1,
            final(self).nodes@.len() == old(self).nodes@.len(),
            loser is None ==> final(self).nodes == old(self).nodes,
    {
        match loser {
            None => {},
            Some(l) => {
                let steps = self.path.len();
                // the root only counts visits
                let r = self.path[0];
                let ghost pre = self.nodes@;
                let root = &mut self.nodes[r];
                if root.n < u32::MAX {
                    root.n = root.n + 1;
                }
                proof {
                    assert(forall|q: int|
                        0 <= q < self.nodes@.len() && q != 0 ==> self.nodes@[q] == pre[q]);
                    assert(self.wf()) by {
                        assert forall|q: int|
                            0 <= q < self.nodes@.len() implies node_ok(
                            #[trigger] self.nodes@[q]) by {
                            if q == 0 {
                                lemma_node_ok_shape(pre[q], self.nodes@[q]);
                            }
                        }
                        assert forall|i: int, c: int|
                            0 <= i < self.nodes@.len() && 0 <= c
                                < self.nodes@[i].children@.len() implies ((
                        #[trigger] self.nodes@[i].children@[c]).1 as int) < self.nodes@.len() && (
                        self.nodes@[i].children@[c].1 as int) > i by {
                            assert(self.nodes@[i].children == pre[i].children);
                        }
                    }
                }
                let mut k: usize = 1;
                while k < steps
                    invariant
                        self.wf(),
                        steps == self.path@.len(),
                        1 <= k,
                        self.path == old(self).path,
                        self.nodes@.len() == old(self).nodes@.len(),
                    decreases steps - k,
                {
                    let parent_idx = self.path[k - 1];
                    let child_idx = self.path[k];
                    let mover = self.nodes[parent_idx].game_state.player_to_play;
                    let ghost pre2 = self.nodes@;
                    let child = &mut self.nodes[child_idx];
                    if child.n < u32::MAX {
                        child.n = child.n + 1;
                    }
                    if mover != l && child.w < u32::MAX {
                        child.w = child.w + 1;
                    }
                    proof {
                        assert(forall|q: int|
                            0 <= q < self.nodes@.len() && q != child_idx as int
                                ==> self.nodes@[q] == pre2[q]);
                        assert(self.wf()) by {
                            assert forall|q: int|
                                0 <= q < self.nodes@.len() implies node_ok(
                                #[trigger] self.nodes@[q]) by {
                                if q == child_idx as int {
                                    lemma_node_ok_shape(pre2[q], self.nodes@[q]);
                                }
                            }
                            assert forall|i: int, c: int|
                                0 <= i < self.nodes@.len() && 0 <= c
                                    < self.nodes@[i].children@.len() implies ((
                            #[trigger] self.nodes@[i].children@[c]).1 as int) < self.nodes@.len()
                                && (self.nodes@[i].children@[c].1 as int) > i by {
                                assert(self.nodes@[i].children == pre2[i].children);
                            }
                        }
                    }
                    k = k + 1;
                }
            },
        }
        self.begin_rollout();
    }

    /// The root's explored actions with their aggregated (wins, visits).
    pub fn root_stats(&self) -> (r: Vec<(Action, u32, u32)>)
        requires
            self.wf(),
    {
        let mut out: Vec<(Action, u32, u32)> = Vec::new();
        let m = self.nodes[0].children.len();
        let mut c: usize = 0;
        while c < m
            invariant
                self.wf(),
                m == self.nodes@[0].children@.len(),
                c <= m,
            decreases m - c,
        {
            let child_idx = self.nodes[0].children[c].1;
            proof {
                assert((self.nodes@[0].children@[c as int].1 as int) < self.nodes@.len());
            }
            let a = self.nodes[0].children[c].0.clone();
            let child = &self.nodes[child_idx];
            out.push((a, child.w, child.n));
            c = c + 1;
        }
        out
    }
}

impl GameState {
    /// Runtime check of `action_executable`, so that a caller outside the
    /// engine can guard a call of the executor. For a throw the check is
    /// sound but may refuse: a `true` answer always means executable.
    pub fn can_play_action(&self, a: &Action) -> (r: bool)
        requires
            self.wf(),
            !self.is_end_state,
        ensures
            r ==> self.action_executable(*a),
            a.name != ActionKind::ThrowCards ==> r == self.action_executable(*a),
    {
        if a.name == ActionKind::Attack {
            self.current_action == ActionKind::Attack && self.can_play_now(
                self.player_to_play,
                a.card,
            ) && a.card.0 >= 0 && a.card.0 < 4 && a.card.1 >= 0 && a.card.1 < 9
                && self.card_collection.hands[self.defender as usize].len() > 0
        } else if a.name == ActionKind::Defend {
            self.current_action == ActionKind::Defend && self.can_play_now(self.defender, a.card)
                && a.card.0 >= 0 && a.card.0 < 4 && a.card.1 >= 0 && a.card.1 < 9
        } else if a.name == ActionKind::Take {
            self.current_action == ActionKind::Defend
        } else if a.name == ActionKind::PassAttack {
            self.current_action == ActionKind::Attack
        } else if a.name == ActionKind::ThrowCards {
            if self.current_action != ActionKind::ThrowCards {
                return false;
            }
            let p = self.player_to_play;
            let tn = a.throw.len();
            let mut missing: usize = 0;
            let mut i2: usize = 0;
            while i2 < tn
                invariant
                    tn == a.throw@.len(),
                    i2 <= tn,
                    (p as int) < self.hands().len(),
                    missing == missing_count(self.hand(p as int), a.throw@.subrange(0, i2 as int)),
                    missing <= i2,
                    forall|k: int| 0 <= k < i2 as int ==> valid_id(#[trigger] a.throw@[k]),
                    forall|k: int, k2: int|
                        0 <= k < k2 < i2 as int ==> a.throw@[k] != a.throw@[k2],
                    forall|k: int|
                        0 <= k < i2 as int ==> hand_has_concrete(
                            self.hand(p as int),
                            #[trigger] a.throw@[k],
                        ) || self.pool().contains(a.throw@[k]),
                decreases tn - i2,
            {
                let t = a.throw[i2];
                if !(t.0 >= 0 && t.0 < 4 && t.1 >= 0 && t.1 < 9) {
                    return false;
                }
                let mut k: usize = 0;
                while k < i2
                    invariant
                        k <= i2,
                        i2 < tn,
                        tn == a.throw@.len(),
                        forall|k2: int| 0 <= k2 < k as int ==> a.throw@[k2] != a.throw@[i2 as int],
                    decreases i2 - k,
                {
                    if a.throw[k].0 == t.0 && a.throw[k].1 == t.1 {
                        return false;
                    }
                    k = k + 1;
                }
                let conc = self.hand_has_concrete_card(p, t);
                if !conc {
                    if !crate::collection::contains_id(&self.card_collection.unknown, t) {
                        return false;
                    }
                    missing = missing + 1;
                }
                proof {
                    assert(a.throw@.subrange(0, i2 as int + 1).drop_last() =~= a.throw@.subrange(
                        0,
                        i2 as int,
                    ));
                    assert(a.throw@.subrange(0, i2 as int + 1).last() == a.throw@[i2 as int]);
                }
                i2 = i2 + 1;
            }
            proof {
                assert(a.throw@.subrange(0, tn as int) =~= a.throw@);
            }
            let u = self.count_unknown_slots(p);
            let dl = self.card_collection.hands[self.defender as usize].len();
            let cl = self.cards_to_defend.len();
            missing <= u && dl >= cl && tn <= dl - cl
        } else if a.name == ActionKind::Reflect {
            if self.current_action != ActionKind::Defend {
                return false;
            }
            let tl = self.card_collection.hands[self.attackers[1 % self.attackers.len()] as usize].len();
            self.can_play_now(self.defender, a.card) && a.card.0 >= 0 && a.card.0 < 4
                && a.card.1 >= 0 && a.card.1 < 9 && tl > self.cards_to_defend.len()
        } else {
            if self.current_action != ActionKind::Defend {
                return false;
            }
            let tl = self.card_collection.hands[self.attackers[1 % self.attackers.len()] as usize].len();
            self.can_play_now(self.defender, a.card) && a.card.0 >= 0 && a.card.0 < 4
                && a.card.1 >= 0 && a.card.1 < 9 && a.card.0 == self.card_collection.trump_suit
                && !crate::collection::contains_id(&self.reflected_trumps, a.card) && tl
                >= self.cards_to_defend.len()
        }
    }
}

/// Add a worker's (wins, visits) tallies into the running totals, keyed by
/// action.
pub fn merge_ratings(total: &mut Vec<(Action, u32, u32)>, part: &Vec<(Action, u32, u32)>)
{
    let m = part.len();
    let mut j: usize = 0;
    while j < m
        invariant
            m == part@.len(),
            j <= m,
        decreases m - j,
    {
        let n = total.len();
        let mut found = false;
        let mut i: usize = 0;
        while i < n && !found
            invariant
                n == total@.len() || found,
                i <= n,
                m == part@.len(),
                (j as int) < m as int,
            decreases n - i,
        {
            if total[i].0 == part[j].0 {
                let w0 = total[i].1;
                let n0 = total[i].2;
                let w1 = part[j].1;
                let n1 = part[j].2;
                let neww = if w0 <= u32::MAX - w1 {
                    w0 + w1
                } else {
                    u32::MAX
                };
                let newn = if n0 <= u32::MAX - n1 {
                    n0 + n1
                } else {
                    u32::MAX
                };
                let act = total[i].0.clone();
                total[i] = (act, neww, newn);
                found = true;
            }
            i = i + 1;
        }
        if !found {
            total.push((part[j].0.clone(), part[j].1, part[j].2));
        }
        j = j + 1;
    }
}

/// The action with the greatest win rate `w / n`, compared exactly by cross
/// multiplication; the first best one wins ties. Nothing is returned for an
/// empty list.
pub fn best_action(ratings: &Vec<(Action, u32, u32)>) -> (r: Option<Action>)
    requires
        forall|i: int| 0 <= i < ratings@.len() ==> (#[trigger] ratings@[i]).2 > 0,
    ensures
        ratings@.len() == 0 <==> r is None,
        r matches Some(a) ==> exists|j: int|
            0 <= j < ratings@.len() && a.name == (#[trigger] ratings@[j]).0.name && a.card
                == ratings@[j].0.card && a.throw@ == ratings@[j].0.throw@ && (forall|i: int|
                0 <= i < ratings@.len() ==> (ratings@[j].1 as int) * ((#[trigger] ratings@[i]).2 as int)
                    >= (ratings@[i].1 as int) * (ratings@[j].2 as int)),
{
    if ratings.len() == 0 {
        return None;
    }
    let n = ratings.len();
    let mut best: usize = 0;
    let mut i: usize = 1;
    while i < n
        invariant
            n == ratings@.len(),
            1 <= i <= n,
            (best as int) < n as int,
            forall|k: int|
                0 <= k < i as int ==> (ratings@[best as int].1 as int) * ((#[trigger] ratings@[k]).2 as int)
                    >= (ratings@[k].1 as int) * (ratings@[best as int].2 as int),
        decreases n - i,
    {
        let wi = ratings[i].1 as u64;
        let ni = ratings[i].2 as u64;
        let wb = ratings[best].1 as u64;
        let nb = ratings[best].2 as u64;
        proof {
            assert((wi as int) * (nb as int) <= 0xffff_ffff * 0xffff_ffff && (wb as int) * (
            ni as int) <= 0xffff_ffff * 0xffff_ffff) by (nonlinear_arith)
                requires
                    0 <= wi as int <= 0xffff_ffff,
                    0 <= nb as int <= 0xffff_ffff,
                    0 <= wb as int <= 0xffff_ffff,
                    0 <= ni as int <= 0xffff_ffff,
            ;
            assert(ratings@[i as int].2 > 0 && ratings@[best as int].2 > 0);
        }
        if wi * nb > wb * ni {
            let ghost ob = best as int;
            best = i;
            proof {
                assert((ratings@[i as int].1 as int) * (ratings@[ob].2 as int) > (ratings@[ob].1
                    as int) * (ratings@[i as int].2 as int));
                assert forall|k: int|
                    0 <= k < i as int + 1 implies (ratings@[best as int].1 as int) * ((
                #[trigger] ratings@[k]).2 as int) >= (ratings@[k].1 as int) * (ratings@[
                    best as int].2 as int) by {
                    if k < i as int {
                        assert(ratings@[k].2 > 0);
                        lemma_ratio_trans(
                            ratings@[i as int].1 as int,
                            ratings@[i as int].2 as int,
                            ratings@[k].1 as int,
                            ratings@[k].2 as int,
                            ratings@[ob].1 as int,
                            ratings@[ob].2 as int,
                        );
                    }
                }
            }
        }
        i = i + 1;
    }
    let a = ratings[best].0.clone();
    proof {
        assert(a.name == ratings@[best as int].0.name && a.card == ratings@[best as int].0.card
            && a.throw@ == ratings@[best as int].0.throw@);
    }
    Some(a)
}

/// Win-rate dominance is transitive over positive visit counts.
pub proof fn lemma_ratio_trans(w1: int, n1: int, w2: int, n2: int, w0: int, n0: int)
    requires
        n0 > 0,
        n1 > 0,
        n2 > 0,
        w1 * n0 > w0 * n1,
        w0 * n2 >= w2 * n0,
    ensures
        w1 * n2 >= w2 * n1,
{
    assert(w1 * n2 >= w2 * n1) by (nonlinear_arith)
        requires
            n0 > 0,
            n1 > 0,
            n2 > 0,
            w1 * n0 > w0 * n1,
            w0 * n2 >= w2 * n0,
    ;
}

} // verus!
