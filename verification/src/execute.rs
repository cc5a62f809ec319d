//! The action executor: apply one announced action to the state, advancing
//! the trick and the turn, and keep the state invariant.

use vstd::prelude::*;
use vstd::multiset::Multiset;

use crate::cards::{Action, ActionKind, CardId, HandSlot, valid_id, slot_unknown, slot_id};
use crate::collection::{copy_vec, contains_id, remove_id, distinct_ids, hand_mset, hand_unknowns,
    hands_mset, hands_unknowns, ids_mset, pairs_mset, slot_mset, full_mset,
    lemma_hand_mset_swap_remove,
    lemma_hand_mset_update, lemma_hands_mset_update, lemma_ids_mset_contains, lemma_full_count,
    lemma_ids_mset_push};
use crate::game::GameState;
use crate::legal::{hand_has_concrete, lemma_hand_unknowns_pos};

verus! {

/// A concrete slot contributes its identity to the hand's tally.
pub proof fn lemma_hand_concrete_count(h: Seq<HandSlot>, id: CardId)
    requires
        hand_has_concrete(h, id),
    ensures
        hand_mset(h).count(id) >= 1,
    decreases h.len(),
{
    let j = choose|j: int| 0 <= j < h.len() && !slot_unknown(#[trigger] h[j]) && slot_id(h[j]) == id;
    if j == h.len() - 1 {
        assert(slot_mset(h.last()).count(id) == 1);
    } else {
        assert(h.drop_last()[j] == h[j]);
        assert(hand_has_concrete(h.drop_last(), id));
        lemma_hand_concrete_count(h.drop_last(), id);
    }
}

/// One hand's tally is bounded by the tally of all hands.
pub proof fn lemma_hands_component(hs: Seq<Vec<HandSlot>>, p: int, x: CardId)
    requires
        0 <= p < hs.len(),
    ensures
        hands_mset(hs).count(x) >= hand_mset(hs[p]@).count(x),
    decreases hs.len(),
{
    if p == hs.len() - 1 {
    } else {
        assert(hs.drop_last()[p] == hs[p]);
        lemma_hands_component(hs.drop_last(), p, x);
    }
}

/// Two different hands tally independently.
pub proof fn lemma_hands_two_components(hs: Seq<Vec<HandSlot>>, p: int, q: int, x: CardId)
    requires
        0 <= p < q < hs.len(),
    ensures
        hands_mset(hs).count(x) >= hand_mset(hs[p]@).count(x) + hand_mset(hs[q]@).count(x),
    decreases hs.len(),
{
    if q == hs.len() - 1 {
        assert(hs.drop_last()[p] == hs[p]);
        lemma_hands_component(hs.drop_last(), p, x);
    } else {
        assert(hs.drop_last()[p] == hs[p] && hs.drop_last()[q] == hs[q]);
        lemma_hands_two_components(hs.drop_last(), p, q, x);
    }
}

/// Conservation means no two hands hold the same identity concretely, and
/// no hand holds an identity that still floats in the pool.
pub proof fn lemma_cross_hand_unique(s: GameState, p: int, q: int, id: CardId)
    requires
        s.conserved(),
        0 <= p < s.hands().len(),
        0 <= q < s.hands().len(),
        p != q,
        hand_has_concrete(s.hand(p), id),
    ensures
        !hand_has_concrete(s.hand(q), id),
{
    if hand_has_concrete(s.hand(q), id) {
        lemma_hand_concrete_count(s.hand(p), id);
        lemma_hand_concrete_count(s.hand(q), id);
        if p < q {
            lemma_hands_two_components(s.hands(), p, q, id);
        } else {
            lemma_hands_two_components(s.hands(), q, p, id);
        }
        lemma_full_count(id);
        assert(s.placed_mset().count(id) >= 2);
    }
}

/// Removing one hand slot keeps every concrete match of a different
/// identity and never adds unknown slots.
pub proof fn lemma_swap_remove_slot(h: Seq<HandSlot>, i: int, x: CardId)
    requires
        0 <= i < h.len(),
        slot_unknown(h[i]) || slot_id(h[i]) != x,
        hand_has_concrete(h, x),
    ensures
        hand_has_concrete(h.update(i, h.last()).drop_last(), x),
{
    let n = h.update(i, h.last()).drop_last();
    let j = choose|j: int| 0 <= j < h.len() && !slot_unknown(#[trigger] h[j]) && slot_id(h[j]) == x;
    if j == h.len() - 1 {
        assert(i < h.len() - 1);
        assert(n[i] == h[j]);
    } else if j == i {
        assert(false);
    } else {
        assert(n[j] == h[j]);
    }
}

/// Two concrete slots with the same identity would count it twice.
pub proof fn lemma_hand_dup_count(h: Seq<HandSlot>, j1: int, j2: int)
    requires
        0 <= j1 < j2 < h.len(),
        !slot_unknown(h[j1]),
        !slot_unknown(h[j2]),
        slot_id(h[j1]) == slot_id(h[j2]),
    ensures
        hand_mset(h).count(slot_id(h[j1])) >= 2,
    decreases h.len(),
{
    if j2 == h.len() - 1 {
        assert(h.drop_last()[j1] == h[j1]);
        assert(hand_has_concrete(h.drop_last(), slot_id(h[j1])));
        lemma_hand_concrete_count(h.drop_last(), slot_id(h[j1]));
        assert(slot_mset(h.last()).count(slot_id(h[j1])) == 1);
    } else {
        assert(h.drop_last()[j1] == h[j1] && h.drop_last()[j2] == h[j2]);
        lemma_hand_dup_count(h.drop_last(), j1, j2);
    }
}

/// Conservation means no hand holds the same identity in two concrete slots.
pub proof fn lemma_hand_unique_concrete(s: GameState, p: int, j1: int, j2: int)
    requires
        s.conserved(),
        0 <= p < s.hands().len(),
        0 <= j1 < j2 < s.hand(p).len(),
        !slot_unknown(s.hand(p)[j1]),
        !slot_unknown(s.hand(p)[j2]),
    ensures
        slot_id(s.hand(p)[j1]) != slot_id(s.hand(p)[j2]),
{
    if slot_id(s.hand(p)[j1]) == slot_id(s.hand(p)[j2]) {
        let id = slot_id(s.hand(p)[j1]);
        lemma_hand_dup_count(s.hand(p), j1, j2);
        lemma_hands_component(s.hands(), p, id);
        lemma_full_count(id);
        assert(s.placed_mset().count(id) >= 2);
    }
}

/// A hand that keeps every concrete match of the thrown cards cannot have
/// more cards missing a concrete slot than before.
pub proof fn lemma_missing_mono(h: Seq<HandSlot>, h2: Seq<HandSlot>, t: Seq<CardId>)
    requires
        forall|i: int|
            0 <= i < t.len() ==> (hand_has_concrete(h, #[trigger] t[i]) ==> hand_has_concrete(
                h2,
                t[i],
            )),
    ensures
        crate::legal::missing_count(h2, t) <= crate::legal::missing_count(h, t),
    decreases t.len(),
{
    if t.len() > 0 {
        assert(forall|i: int| 0 <= i < t.drop_last().len() ==> t.drop_last()[i] == t[i]);
        lemma_missing_mono(h, h2, t.drop_last());
        assert(t[t.len() - 1] == t.last());
    }
}

/// Missing counts add up over concatenated throws.
pub proof fn lemma_missing_add(h: Seq<HandSlot>, a: Seq<CardId>, b: Seq<CardId>)
    ensures
        crate::legal::missing_count(h, a + b) == crate::legal::missing_count(h, a)
            + crate::legal::missing_count(h, b),
    decreases b.len(),
{
    if b.len() == 0 {
        assert(a + b =~= a);
    } else {
        lemma_missing_add(h, a, b.drop_last());
        assert((a + b).drop_last() =~= a + b.drop_last());
        assert((a + b).last() == b.last());
    }
}

/// What taking a played identity out of a hand looks like from outside:
/// the hand shrinks by one slot, the identity stops being non-public, and
/// either a concrete slot held it (the hand's tally loses it, the pool is
/// untouched) or an unknown slot stood in for it (the tally is unchanged and
/// the identity leaves the pool).
pub open spec fn removal_view(pre: GameState, p: int, id: CardId, post: GameState) -> bool {
    &&& post.hand(p).len() == pre.hand(p).len() - 1
    &&& !post.nonpub().contains(id)
    &&& forall|x: CardId| post.nonpub().contains(x) <==> (pre.nonpub().contains(x) && x != id)
    &&& (hand_has_concrete(pre.hand(p), id) ==> hand_mset(post.hand(p)).insert(id) =~= hand_mset(
        pre.hand(p),
    ) && post.pool() == pre.pool() && hand_unknowns(post.hand(p)) == hand_unknowns(pre.hand(p)))
    &&& (!hand_has_concrete(pre.hand(p), id) ==> hand_mset(post.hand(p)) =~= hand_mset(
        pre.hand(p),
    ) && hand_unknowns(post.hand(p)) + 1 == hand_unknowns(pre.hand(p)) && ids_mset(
        post.pool(),
    ).insert(id) =~= ids_mset(pre.pool()))
}

/// What revealing a hand slot's identity to everyone looks like from
/// outside: the hand keeps its size and now holds the identity concretely
/// and publicly; the identity stops being non-public; an unknown slot that
/// stood in for it consumes one pool identity.
pub open spec fn reveal_view(pre: GameState, p: int, id: CardId, post: GameState) -> bool {
    &&& post.hand(p).len() == pre.hand(p).len()
    &&& hand_has_concrete(post.hand(p), id)
    &&& !post.nonpub().contains(id)
    &&& forall|x: CardId| post.nonpub().contains(x) <==> (pre.nonpub().contains(x) && x != id)
    &&& (hand_has_concrete(pre.hand(p), id) ==> hand_mset(post.hand(p)) =~= hand_mset(
        pre.hand(p),
    ) && post.pool() == pre.pool() && hand_unknowns(post.hand(p)) == hand_unknowns(pre.hand(p)))
    &&& (!hand_has_concrete(pre.hand(p), id) ==> hand_mset(post.hand(p)) =~= hand_mset(
        pre.hand(p),
    ).insert(id) && hand_unknowns(post.hand(p)) + 1 == hand_unknowns(pre.hand(p)) && ids_mset(
        post.pool(),
    ).insert(id) =~= ids_mset(pre.pool()))
}

/// The per-action transition of the executor, stated over the views of
/// the pre- and post-states: what each of the seven action kinds does to the
/// trick, the turn and the knowledge store. `execute_action` guarantees it,
/// so the outcome of every dispatched action is pinned at the dispatcher,
/// not only at the per-action operations.
pub open spec fn step_view(pre: GameState, a: Action, post: GameState) -> bool {
    &&& post.num_players == pre.num_players
    &&& post.hands().len() == pre.hands().len()
    &&& if a.name == ActionKind::Attack {
        &&& post.is_end_state == pre.is_end_state
        &&& post.loser == pre.loser
        &&& post.current_action == ActionKind::Defend
        &&& post.cards_to_defend@ == pre.cards_to_defend@.push(a.card)
        &&& post.pairs_finished@ == pre.pairs_finished@
        &&& post.discard@ == pre.discard@
        &&& post.deck@ == pre.deck@
        &&& post.last_played_attacker == pre.player_to_play
        &&& post.player_to_play == pre.defender
        &&& post.defender == pre.defender
        &&& post.attackers@ == pre.attackers@
        &&& post.current_attacker == pre.current_attacker
        &&& post.attacker_to_start_throwing == pre.attacker_to_start_throwing
        &&& post.draw_order@ == pre.draw_order@
        &&& post.reflected_trumps@ == pre.reflected_trumps@
        &&& post.main_attacker == pre.main_attacker
        &&& forall|q: int|
            0 <= q < pre.hands().len() && q != pre.player_to_play as int ==> #[trigger] post.hand(
                q,
            ) == pre.hand(q)
        &&& removal_view(pre, pre.player_to_play as int, a.card, post)
    } else if a.name == ActionKind::Defend {
        &&& post.is_end_state == pre.is_end_state
        &&& post.loser == pre.loser
        &&& post.pairs_finished@ == pre.pairs_finished@.push((pre.cards_to_defend@[0], a.card))
        &&& post.cards_to_defend@ == pre.cards_to_defend@.update(
            0,
            pre.cards_to_defend@.last(),
        ).drop_last()
        &&& (post.cards_to_defend@.len() == 0 ==> post.current_action == ActionKind::Attack
            && post.player_to_play == pre.attackers@[pre.current_attacker as int])
        &&& (post.cards_to_defend@.len() > 0 ==> post.current_action == ActionKind::Defend
            && post.player_to_play == pre.defender)
        &&& post.discard@ == pre.discard@
        &&& post.deck@ == pre.deck@
        &&& post.attackers@ == pre.attackers@
        &&& post.defender == pre.defender
        &&& post.current_attacker == pre.current_attacker
        &&& post.attacker_to_start_throwing == pre.attacker_to_start_throwing
        &&& post.last_played_attacker == pre.last_played_attacker
        &&& post.draw_order@ == pre.draw_order@
        &&& post.reflected_trumps@ == pre.reflected_trumps@
        &&& post.main_attacker == pre.main_attacker
        &&& forall|q: int|
            0 <= q < pre.hands().len() && q != pre.defender as int ==> #[trigger] post.hand(q)
                == pre.hand(q)
        &&& removal_view(pre, pre.defender as int, a.card, post)
    } else if a.name == ActionKind::Take {
        &&& post.is_end_state == pre.is_end_state
        &&& post.loser == pre.loser
        &&& post.current_action == ActionKind::ThrowCards
        &&& post.attacker_to_start_throwing == pre.current_attacker
        &&& post.player_to_play == pre.attackers@[pre.current_attacker as int]
        &&& post.pool() == pre.pool()
        &&& post.nonpub() == pre.nonpub()
        &&& forall|q: int| 0 <= q < pre.hands().len() ==> #[trigger] post.hand(q) == pre.hand(q)
        &&& post.deck@ == pre.deck@
        &&& post.cards_to_defend@ == pre.cards_to_defend@
        &&& post.pairs_finished@ == pre.pairs_finished@
        &&& post.discard@ == pre.discard@
        &&& post.attackers@ == pre.attackers@
        &&& post.defender == pre.defender
        &&& post.current_attacker == pre.current_attacker
        &&& post.last_played_attacker == pre.last_played_attacker
        &&& post.draw_order@ == pre.draw_order@
        &&& post.reflected_trumps@ == pre.reflected_trumps@
        &&& post.main_attacker == pre.main_attacker
    } else if a.name == ActionKind::PassAttack {
        let len = pre.attackers@.len() as int;
        let adv = pre.attackers@[((pre.current_attacker as int) + 1) % len];
        if adv != pre.last_played_attacker {
            &&& !post.is_end_state
            &&& post.loser == pre.loser
            &&& post.current_action == ActionKind::Attack
            &&& post.current_attacker as int == ((pre.current_attacker as int) + 1) % len
            &&& post.player_to_play == adv
            &&& post.pool() == pre.pool()
            &&& post.nonpub() == pre.nonpub()
            &&& forall|q: int|
                0 <= q < pre.hands().len() ==> #[trigger] post.hand(q) == pre.hand(q)
            &&& post.deck@ == pre.deck@
            &&& post.pairs_finished@ == pre.pairs_finished@
            &&& post.discard@ == pre.discard@
            &&& post.cards_to_defend@ == pre.cards_to_defend@
            &&& post.reflected_trumps@ == pre.reflected_trumps@
            &&& post.attackers@ == pre.attackers@
            &&& post.defender == pre.defender
            &&& post.draw_order@ == pre.draw_order@
            &&& post.attacker_to_start_throwing == pre.attacker_to_start_throwing
            &&& post.last_played_attacker == pre.last_played_attacker
            &&& post.main_attacker == pre.main_attacker
        } else {
            &&& ids_mset(post.discard@) =~= ids_mset(pre.discard@).add(
                pairs_mset(pre.pairs_finished@))
            &&& post.pairs_finished@.len() == 0
            &&& post.cards_to_defend@.len() == 0
            &&& (!post.is_end_state ==> post.current_action == ActionKind::Attack)
            &&& post.main_attacker == pre.defender
            &&& post.deck@.len() <= pre.deck@.len()
            &&& post.deck@ == pre.deck@.subrange(0, post.deck@.len() as int)
        }
    } else if a.name == ActionKind::ThrowCards {
        let len = pre.attackers@.len() as int;
        let adv = pre.attackers@[((pre.current_attacker as int) + 1) % len];
        if adv != pre.attackers@[pre.attacker_to_start_throwing as int] {
            &&& !post.is_end_state
            &&& post.loser == pre.loser
            &&& post.current_action == ActionKind::ThrowCards
            &&& post.cards_to_defend@ == pre.cards_to_defend@ + a.throw@
            &&& post.pairs_finished@ == pre.pairs_finished@
            &&& post.discard@ == pre.discard@
            &&& post.deck@ == pre.deck@
            &&& post.player_to_play == adv
            &&& post.current_attacker as int == ((pre.current_attacker as int) + 1) % len
            &&& post.hand(pre.player_to_play as int).len() == pre.hand(
                pre.player_to_play as int,
            ).len() - a.throw@.len()
            &&& forall|q: int|
                0 <= q < pre.hands().len() && q != pre.player_to_play as int
                    ==> #[trigger] post.hand(q) == pre.hand(q)
            &&& post.attackers@ == pre.attackers@
            &&& post.defender == pre.defender
            &&& post.draw_order@ == pre.draw_order@
            &&& post.attacker_to_start_throwing == pre.attacker_to_start_throwing
            &&& post.last_played_attacker == pre.last_played_attacker
            &&& post.main_attacker == pre.main_attacker
            &&& post.reflected_trumps@ == pre.reflected_trumps@
        } else {
            let base = pre.hand(pre.defender as int).len() as int;
            let gained = pre.cards_to_defend@ + a.throw@;
            &&& post.main_attacker == pre.attackers@[1int % len]
            &&& post.cards_to_defend@.len() == 0
            &&& post.pairs_finished@.len() == 0
            &&& (!post.is_end_state ==> post.current_action == ActionKind::Attack)
            &&& post.discard@ == pre.discard@
            &&& post.deck@.len() <= pre.deck@.len()
            &&& post.deck@ == pre.deck@.subrange(0, post.deck@.len() as int)
            &&& post.hand(pre.defender as int).len() >= base + gained.len() + 2
                * pre.pairs_finished@.len()
            &&& forall|j: int|
                0 <= j < base ==> #[trigger] post.hand(pre.defender as int)[j] == pre.hand(
                    pre.defender as int,
                )[j]
            &&& forall|t: int|
                0 <= t < gained.len() ==> post.hand(pre.defender as int)[base + t] == ((
                #[trigger] gained[t]).0, gained[t].1, true)
            &&& forall|t: int|
                0 <= t < pre.pairs_finished@.len() ==> post.hand(pre.defender as int)[base
                    + gained.len() + 2 * t] == ((#[trigger] pre.pairs_finished@[t]).0.0,
                    pre.pairs_finished@[t].0.1, true) && post.hand(pre.defender as int)[base
                    + gained.len() + 2 * t + 1] == (pre.pairs_finished@[t].1.0,
                    pre.pairs_finished@[t].1.1, true)
        }
    } else if a.name == ActionKind::Reflect {
        let len = pre.attackers@.len() as int;
        let upd = pre.attackers@.update(1int % len, pre.defender);
        &&& post.is_end_state == pre.is_end_state
        &&& post.loser == pre.loser
        &&& post.current_action == ActionKind::Defend
        &&& post.defender == pre.attackers@[1int % len]
        &&& post.player_to_play == post.defender
        &&& post.cards_to_defend@ == pre.cards_to_defend@.push(a.card)
        &&& post.last_played_attacker == pre.defender
        &&& post.pairs_finished@ == pre.pairs_finished@
        &&& post.discard@ == pre.discard@
        &&& post.deck@ == pre.deck@
        &&& post.reflected_trumps@ == pre.reflected_trumps@
        &&& post.main_attacker == pre.main_attacker
        &&& post.current_attacker == pre.current_attacker
        &&& post.attacker_to_start_throwing == pre.attacker_to_start_throwing
        &&& post.attackers@ == upd.remove(0).push(upd[0])
        &&& post.draw_order@ == upd.push(pre.attackers@[1int % len])
        &&& forall|q: int|
            0 <= q < pre.hands().len() && q != pre.defender as int ==> #[trigger] post.hand(q)
                == pre.hand(q)
        &&& removal_view(pre, pre.defender as int, a.card, post)
    } else {
        let len = pre.attackers@.len() as int;
        let upd = pre.attackers@.update(1int % len, pre.defender);
        &&& post.is_end_state == pre.is_end_state
        &&& post.loser == pre.loser
        &&& post.current_action == ActionKind::Defend
        &&& post.defender == pre.attackers@[1int % len]
        &&& post.player_to_play == post.defender
        &&& post.cards_to_defend@ == pre.cards_to_defend@
        &&& post.reflected_trumps@ == pre.reflected_trumps@.push(a.card)
        &&& post.last_played_attacker == pre.defender
        &&& post.pairs_finished@ == pre.pairs_finished@
        &&& post.discard@ == pre.discard@
        &&& post.deck@ == pre.deck@
        &&& post.main_attacker == pre.main_attacker
        &&& post.current_attacker == pre.current_attacker
        &&& post.attacker_to_start_throwing == pre.attacker_to_start_throwing
        &&& post.attackers@ == upd.remove(0).push(upd[0])
        &&& post.draw_order@ == upd.push(pre.attackers@[1int % len])
        &&& post.hand(pre.defender as int).len() == pre.hand(pre.defender as int).len()
        &&& forall|q: int|
            0 <= q < pre.hands().len() && q != pre.defender as int ==> #[trigger] post.hand(q)
                == pre.hand(q)
        &&& reveal_view(pre, pre.defender as int, a.card, post)
    }
}

/// The transition relation reads the pre-state only through its views, so it
/// carries over from any value-for-value copy of the pre-state.
pub proof fn lemma_step_view_compose(a: GameState, b: GameState, act: Action, c: GameState)
    requires
        a.wf(),
        GameState::same_views(a, b),
        step_view(b, act, c),
    ensures
        step_view(a, act, c),
{
    assert(forall|q: int| 0 <= q < a.hands().len() ==> a.hand(q) == b.hand(q));
    assert forall|q: int| 0 <= q < a.hands().len() implies c.hand(q) == c.hand(q) by {
    }
    if act.name == ActionKind::Attack || act.name == ActionKind::Defend || act.name
        == ActionKind::Reflect {
        let p = if act.name == ActionKind::Attack {
            a.player_to_play as int
        } else {
            a.defender as int
        };
        assert(a.hand(p) == b.hand(p));
        assert(removal_view(a, p, act.card, c));
        assert forall|q: int|
            0 <= q < a.hands().len() && q != p implies c.hand(q) == a.hand(q) by {
            assert(c.hand(q) == b.hand(q));
        }
    }
    if act.name == ActionKind::ReflectTrump {
        let p = a.defender as int;
        assert(a.hand(p) == b.hand(p));
        assert(reveal_view(a, p, act.card, c));
        assert forall|q: int|
            0 <= q < a.hands().len() && q != p implies c.hand(q) == a.hand(q) by {
            assert(c.hand(q) == b.hand(q));
        }
    }
    if act.name == ActionKind::Take || act.name == ActionKind::PassAttack {
        assert forall|q: int| 0 <= q < a.hands().len() implies c.hand(q) == b.hand(q) || true by {
        }
        if act.name == ActionKind::Take {
            assert forall|q: int| 0 <= q < a.hands().len() implies c.hand(q) == a.hand(q) by {
                assert(c.hand(q) == b.hand(q));
            }
        } else {
            let len = a.attackers@.len() as int;
            let adv = a.attackers@[((a.current_attacker as int) + 1) % len];
            if adv != a.last_played_attacker {
                assert forall|q: int| 0 <= q < a.hands().len() implies c.hand(q) == a.hand(q) by {
                    assert(c.hand(q) == b.hand(q));
                }
            }
        }
    }
    if act.name == ActionKind::ThrowCards {
        let len = a.attackers@.len() as int;
        let adv = a.attackers@[((a.current_attacker as int) + 1) % len];
        if adv != a.attackers@[a.attacker_to_start_throwing as int] {
            let p = a.player_to_play as int;
            assert(a.hand(p) == b.hand(p));
            assert forall|q: int|
                0 <= q < a.hands().len() && q != p implies c.hand(q) == a.hand(q) by {
                assert(c.hand(q) == b.hand(q));
            }
        } else {
            assert(a.hand(a.defender as int) == b.hand(b.defender as int));
        }
    }
    assert(step_view(a, act, c));
}

/// Card validity and visibility consistency depend only on the knowledge
/// store, the deck and the table, so they carry over to any state that keeps
/// those parts well-formed.
pub proof fn lemma_cards_ok_frame(m: GameState, f: GameState)
    requires
        m.cards_ok(),
        f.card_collection.non_public == m.card_collection.non_public,
        f.card_collection.unknown == m.card_collection.unknown,
        f.card_collection.hands == m.card_collection.hands,
        f.deck == m.deck,
        forall|i: int|
            0 <= i < f.cards_to_defend@.len() ==> valid_id(#[trigger] f.cards_to_defend@[i])
                && !m.nonpub().contains(f.cards_to_defend@[i]),
        forall|i: int|
            0 <= i < f.pairs_finished@.len() ==> valid_id((#[trigger] f.pairs_finished@[i]).0)
                && valid_id(f.pairs_finished@[i].1) && !m.nonpub().contains(
                f.pairs_finished@[i].0,
            ) && !m.nonpub().contains(f.pairs_finished@[i].1),
        forall|i: int|
            0 <= i < f.discard@.len() ==> valid_id(#[trigger] f.discard@[i])
                && !m.nonpub().contains(f.discard@[i]),
    ensures
        f.cards_ok(),
{
    assert(f.nonpub() == m.nonpub());
    assert(f.pool() == m.pool());
    assert(f.hands() == m.hands());
    assert forall|i: int| 0 <= i < f.deck@.len() implies f.deck_entry_ok(
        #[trigger] f.deck@[i]) by {
        assert(m.deck_entry_ok(m.deck@[i]));
    }
    assert forall|p: int, j: int|
        0 <= p < f.hands().len() && 0 <= j < f.hand(p).len() implies f.slot_ok(
        #[trigger] f.hand(p)[j],
    ) by {
        assert(f.hand(p) == m.hand(p));
        assert(m.slot_ok(m.hand(p)[j]));
    }
    assert forall|i: int| 0 <= i < f.pool().len() implies f.nonpub().contains(
        #[trigger] f.pool()[i]) by {
        assert(m.nonpub().contains(m.pool()[i]));
    }
}

impl GameState {
    /// Conservation keeps the pool duplicate-free and valid.
    pub proof fn lemma_pool_distinct(self)
        requires
            self.conserved(),
        ensures
            distinct_ids(self.pool()),
            forall|i: int| 0 <= i < self.pool().len() ==> valid_id(#[trigger] self.pool()[i]),
    {
        assert forall|i: int, j: int|
            0 <= i < j < self.pool().len() implies self.pool()[i] != self.pool()[j] by {
            if self.pool()[i] == self.pool()[j] {
                crate::legal::lemma_dup_count(self.pool(), i, j);
                lemma_full_count(self.pool()[i]);
                assert(self.placed_mset().count(self.pool()[i]) >= 2);
            }
        }
        assert forall|i: int| 0 <= i < self.pool().len() implies valid_id(
            #[trigger] self.pool()[i]) by {
            lemma_full_count(self.pool()[i]);
            assert(self.pool().contains(self.pool()[i]));
            lemma_ids_mset_contains(self.pool(), self.pool()[i]);
            assert(self.placed_mset().count(self.pool()[i]) >= 1);
        }
    }

    /// Conservation means an identity held concretely in a hand is no
    /// longer floating in the pool.
    pub proof fn lemma_concrete_excludes_pool(self, p: int, id: CardId)
        requires
            self.conserved(),
            0 <= p < self.hands().len(),
            hand_has_concrete(self.hand(p), id),
        ensures
            !self.pool().contains(id),
    {
        lemma_hand_concrete_count(self.hand(p), id);
        lemma_hands_component(self.hands(), p, id);
        lemma_full_count(id);
        lemma_ids_mset_contains(self.pool(), id);
        if self.pool().contains(id) {
            assert(self.placed_mset().count(id) >= 2);
            assert(hand_has_concrete(self.hand(p), id));
            let j = choose|j: int|
                0 <= j < self.hand(p).len() && !slot_unknown(#[trigger] self.hand(p)[j])
                    && slot_id(self.hand(p)[j]) == id;
            assert(valid_id(id) || !valid_id(id));
            if !valid_id(id) {
                assert(full_mset().count(id) == 0);
            } else {
                assert(full_mset().count(id) == 1);
            }
        }
    }

    /// Whether the executor can take `id` out of `player`'s hand: either a
    /// concrete slot holds it, or an unknown slot stands in for it and the
    /// identity is still floating in the pool.
    pub open spec fn can_remove(self, player: int, id: CardId) -> bool {
        hand_has_concrete(self.hand(player), id) || (hand_unknowns(self.hand(player)) > 0
            && self.pool().contains(id))
    }

    /// Runtime check of `can_remove`, for callers outside the engine.
    pub fn can_play_now(&self, player_idx: u8, id: CardId) -> (r: bool)
        requires
            (player_idx as int) < self.hands().len(),
        ensures
            r == self.can_remove(player_idx as int, id),
    {
        if self.hand_has_concrete_card(player_idx, id) {
            return true;
        }
        let u = self.count_unknown_slots(player_idx);
        u > 0 && contains_id(&self.card_collection.unknown, id)
    }

    /// Take the played identity out of the hand: the first concrete slot
    /// holding it, or, when none does, an unknown slot, whose identity then
    /// leaves the pool. The identity also stops being non-public, since it
    /// is about to be seen by everyone.
    fn discard_from_hand(&mut self, player_idx: u8, id: CardId)
        requires
            (player_idx as int) < old(self).hands().len(),
            old(self).conserved(),
            old(self).counts_ok(),
            old(self).cards_ok(),
            old(self).can_remove(player_idx as int, id),
            valid_id(id),
        ensures
            final(self).placed_mset().insert(id) =~= old(self).placed_mset(),
            final(self).counts_ok(),
            final(self).cards_ok(),
            !final(self).nonpub().contains(id),
            forall|x: CardId|
                final(self).nonpub().contains(x) <==> (old(self).nonpub().contains(x) && x != id),
            forall|x: CardId| final(self).pool().contains(x) ==> old(self).pool().contains(x),
            final(self).hands().len() == old(self).hands().len(),
            forall|q: int|
                0 <= q < old(self).hands().len() && q != player_idx as int ==> final(self).hands()[q]
                    == old(self).hands()[q],
            final(self).hand(player_idx as int).len() == old(self).hand(player_idx as int).len()
                - 1,
            forall|x: CardId|
                x != id && hand_has_concrete(old(self).hand(player_idx as int), x)
                    ==> hand_has_concrete(final(self).hand(player_idx as int), x),
            hand_unknowns(final(self).hand(player_idx as int)) <= hand_unknowns(
                old(self).hand(player_idx as int),
            ),
            hand_has_concrete(old(self).hand(player_idx as int), id) ==> final(self).pool()
                == old(self).pool() && hand_unknowns(final(self).hand(player_idx as int))
                == hand_unknowns(old(self).hand(player_idx as int)) && hand_mset(
                final(self).hand(player_idx as int),
            ).insert(id) =~= hand_mset(old(self).hand(player_idx as int)),
            !hand_has_concrete(old(self).hand(player_idx as int), id) ==> ids_mset(
                final(self).pool(),
            ).insert(id) =~= ids_mset(old(self).pool()) && final(self).pool().len() == old(
                self,
            ).pool().len() - 1 && hand_unknowns(final(self).hand(player_idx as int)) + 1
                == hand_unknowns(old(self).hand(player_idx as int)) && hand_mset(
                final(self).hand(player_idx as int),
            ) =~= hand_mset(old(self).hand(player_idx as int)),
            removal_view(*old(self), player_idx as int, id, *final(self)),
            final(self).deck == old(self).deck,
            final(self).card_collection.trump_suit == old(self).card_collection.trump_suit,
            GameState::same_turn_fields(*old(self), *final(self)),
            GameState::same_table_fields(*old(self), *final(self)),
    {
        let p = player_idx as usize;
        let ghost oldh = self.hand(player_idx as int);
        let ghost prehands = self.hands();
        let mut hand = copy_vec(&self.card_collection.hands[p]);
        let n = hand.len();
        // look for a concrete slot holding the identity
        let mut concrete_at: usize = n;
        let mut j: usize = 0;
        while j < n
            invariant
                n == oldh.len(),
                hand@ == oldh,
                j <= n,
                concrete_at == n || (concrete_at < j && !slot_unknown(oldh[concrete_at as int])
                    && slot_id(oldh[concrete_at as int]) == id),
                concrete_at == n ==> forall|j2: int|
                    0 <= j2 < j as int ==> slot_unknown(#[trigger] oldh[j2]) || slot_id(oldh[j2])
                        != id,
            decreases n - j,
        {
            let s = hand[j];
            if concrete_at == n && s.0 != -1 && s.0 == id.0 && s.1 == id.1 {
                concrete_at = j;
            }
            j = j + 1;
        }
        let was_concrete = concrete_at < n;
        proof {
            if !was_concrete {
                assert(!hand_has_concrete(oldh, id));
                lemma_hand_unknowns_pos(oldh);
            } else {
                assert(hand_has_concrete(oldh, id)) by {
                    assert(!slot_unknown(oldh[concrete_at as int]) && slot_id(
                        oldh[concrete_at as int]) == id);
                }
            }
        }
        let mut removed_at: usize = 0;
        if was_concrete {
            removed_at = concrete_at;
        } else {
            // find an unknown slot; one exists, and its identity leaves the pool
            let mut found = false;
            let mut k: usize = 0;
            while k < n
                invariant
                    n == oldh.len(),
                    hand@ == oldh,
                    k <= n,
                    found ==> removed_at < n && slot_unknown(oldh[removed_at as int]),
                    !found ==> forall|j2: int|
                        0 <= j2 < k as int ==> !slot_unknown(#[trigger] oldh[j2]),
                decreases n - k,
            {
                if !found && hand[k].0 == -1 {
                    removed_at = k;
                    found = true;
                }
                k = k + 1;
            }
            proof {
                lemma_hand_unknowns_pos(oldh);
                assert(found);
            }
            let found_pool = remove_id(&mut self.card_collection.unknown, id);
        }
        let removed = hand.swap_remove(removed_at);
        proof {
            lemma_hand_mset_swap_remove(oldh, removed_at as int);
            if was_concrete {
                assert(slot_mset(removed) =~= Multiset::empty().insert(id));
            } else {
                assert(slot_mset(removed) =~= Multiset::<CardId>::empty());
            }
        }
        self.card_collection.hands[p] = hand;
        let found_np = remove_id(&mut self.card_collection.non_public, id);
        proof {
            let newh = self.hand(player_idx as int);
            let oldpool = old(self).pool();
            let oldnp = old(self).nonpub();
            assert(self.hands() == prehands.update(player_idx as int, self.hands()[
                player_idx as int]));
            assert(newh == self.hands()[player_idx as int]@);
            lemma_hands_mset_update(prehands, player_idx as int, self.hands()[player_idx as int]);
            old(self).lemma_pool_distinct();
            // conservation: the identity moved out of hand or pool, once
            assert forall|x: CardId|
                self.placed_mset().insert(id).count(x) == old(self).placed_mset().count(x) by {
                assert(hand_mset(newh).add(slot_mset(oldh[removed_at as int])).count(x)
                    == hand_mset(oldh).count(x));
                assert(hands_mset(self.hands()).add(hand_mset(oldh)).count(x) == hands_mset(
                    prehands).add(hand_mset(newh)).count(x));
            }
            assert(self.placed_mset().insert(id) =~= old(self).placed_mset());
            // validity and visibility
            assert(self.counts_ok()) by {
                assert(hand_unknowns(newh) + (if slot_unknown(oldh[removed_at as int]) {
                    1nat
                } else {
                    0nat
                }) == hand_unknowns(oldh));
                assert(hands_unknowns(self.hands()) + hand_unknowns(oldh) == hands_unknowns(
                    prehands) + hand_unknowns(newh));
                if was_concrete {
                    assert(!slot_unknown(oldh[removed_at as int]));
                    assert(self.pool() == oldpool);
                } else {
                    assert(slot_unknown(oldh[removed_at as int]));
                    assert(self.pool().len() == oldpool.len() - 1);
                }
            }
            assert(self.cards_ok()) by {
                assert forall|i: int|
                    0 <= i < self.deck@.len() implies self.deck_entry_ok(
                    #[trigger] self.deck@[i]) by {
                    assert(old(self).deck_entry_ok(old(self).deck@[i]));
                }
                assert forall|q: int, j: int|
                    0 <= q < self.hands().len() && 0 <= j < self.hand(q).len() implies self.slot_ok(
                    #[trigger] self.hand(q)[j],
                ) by {
                    let ri = removed_at as int;
                    let jo: int = if q == player_idx as int {
                        if j == ri && ri < oldh.len() - 1 {
                            oldh.len() - 1
                        } else {
                            j
                        }
                    } else {
                        j
                    };
                    if q == player_idx as int {
                        assert(self.hand(q)[j] == oldh[jo]);
                        assert(old(self).slot_ok(oldh[jo]));
                    } else {
                        assert(self.hand(q) == old(self).hand(q));
                        assert(self.hand(q)[j] == old(self).hand(q)[jo]);
                        assert(old(self).slot_ok(old(self).hand(q)[jo]));
                    }
                    let s2 = self.hand(q)[j];
                    if !slot_unknown(s2) && !s2.2 && slot_id(s2) == id {
                        // impossible: the played identity just left this view
                        assert(hand_has_concrete(old(self).hand(q), id)) by {
                            assert(!slot_unknown(old(self).hand(q)[jo]) && slot_id(
                                old(self).hand(q)[jo]) == id);
                        }
                        if was_concrete {
                            if q == player_idx as int {
                                assert(jo != ri);
                                if jo < ri {
                                    lemma_hand_unique_concrete(*old(self), q, jo, ri);
                                } else {
                                    lemma_hand_unique_concrete(*old(self), q, ri, jo);
                                }
                            } else {
                                lemma_cross_hand_unique(
                                    *old(self),
                                    player_idx as int,
                                    q,
                                    id,
                                );
                            }
                        } else {
                            old(self).lemma_concrete_excludes_pool(q, id);
                        }
                    }
                }
                assert forall|i: int|
                    0 <= i < self.nonpub().len() implies valid_id(#[trigger] self.nonpub()[i]) by {
                    assert(self.nonpub().contains(self.nonpub()[i]));
                    assert(oldnp.contains(self.nonpub()[i]));
                    let j = choose|j: int| 0 <= j < oldnp.len() && oldnp[j] == self.nonpub()[i];
                }
                assert forall|i: int|
                    0 <= i < self.pool().len() implies self.nonpub().contains(
                    #[trigger] self.pool()[i]) by {
                    assert(self.pool().contains(self.pool()[i]));
                    if was_concrete {
                        old(self).lemma_concrete_excludes_pool(player_idx as int, id);
                        assert(self.pool() == oldpool);
                        assert(self.pool()[i] != id);
                        assert(oldnp.contains(self.pool()[i]));
                    } else {
                        assert(oldpool.contains(self.pool()[i]) && self.pool()[i] != id);
                        assert(oldnp.contains(self.pool()[i]));
                    }
                }
            }
            // every concrete match of another identity survives
            assert forall|x: CardId|
                x != id && hand_has_concrete(oldh, x) implies hand_has_concrete(newh, x) by {
                lemma_swap_remove_slot(oldh, removed_at as int, x);
            }
        }
    }

    /// Attack: the played card leaves the attacker's hand, becomes the card
    /// to defend, and the defender is to move.
    pub fn execute_attack(&mut self, card: CardId)
        requires
            old(self).wf(),
            !old(self).is_end_state,
            old(self).current_action == ActionKind::Attack,
            old(self).can_remove(old(self).player_to_play as int, card),
            valid_id(card),
            old(self).hand(old(self).defender as int).len() > 0,
        ensures
            final(self).wf(),
            forall|x: CardId|
                final(self).pool().contains(x) ==> old(self).pool().contains(x),
            !final(self).is_end_state,
            final(self).current_action == ActionKind::Defend,
            final(self).cards_to_defend@ =~= seq![card],
            final(self).pairs_finished == old(self).pairs_finished,
            final(self).discard == old(self).discard,
            final(self).last_played_attacker == old(self).player_to_play,
            final(self).player_to_play == old(self).defender,
            final(self).defender == old(self).defender,
            final(self).attackers == old(self).attackers,
            final(self).current_attacker == old(self).current_attacker,
            final(self).deck == old(self).deck,
            final(self).num_players == old(self).num_players,
            final(self).main_attacker == old(self).main_attacker,
            final(self).draw_order == old(self).draw_order,
            final(self).reflected_trumps == old(self).reflected_trumps,
            final(self).hands().len() == old(self).hands().len(),
            final(self).hand(old(self).player_to_play as int).len() == old(self).hand(
                old(self).player_to_play as int,
            ).len() - 1,
            forall|q: int|
                0 <= q < old(self).hands().len() && q != old(self).player_to_play as int
                    ==> final(self).hands()[q] == old(self).hands()[q],
            forall|x: CardId|
                final(self).nonpub().contains(x) <==> (old(self).nonpub().contains(x) && x
                    != card),
            !final(self).nonpub().contains(card),
            final(self).is_end_state == old(self).is_end_state,
            final(self).loser == old(self).loser,
            final(self).attacker_to_start_throwing == old(self).attacker_to_start_throwing,
            final(self).cards_to_defend@ == old(self).cards_to_defend@.push(card),
            removal_view(*old(self), old(self).player_to_play as int, card, *final(self)),
    {
        self.discard_from_hand(self.player_to_play, card);
        let ghost mid = *self;
        self.last_played_attacker = self.player_to_play;
        self.player_to_play = self.defender;
        self.current_action = ActionKind::Defend;
        let ghost prectd = self.cards_to_defend@;
        self.cards_to_defend.push(card);
        proof {
            lemma_ids_mset_push(prectd, card);
            assert forall|x: CardId|
                self.placed_mset().count(x) == old(self).placed_mset().count(x) by {
                assert(mid.placed_mset().insert(card).count(x) == old(self).placed_mset().count(
                    x));
                assert(ids_mset(self.cards_to_defend@).count(x) == ids_mset(prectd).insert(
                    card).count(x));
            }
            assert(self.placed_mset() =~= old(self).placed_mset());
            assert(self.conserved());
            assert(self.counts_ok());
            lemma_cards_ok_frame(mid, *self);
            assert(self.cards_to_defend@ =~= seq![card]);
            assert(old(self).cards_to_defend@.len() == 0);
            assert(self.cards_to_defend@ =~= old(self).cards_to_defend@.push(card));
            assert(removal_view(*old(self), old(self).player_to_play as int, card, *self)) by {
                assert(removal_view(*old(self), old(self).player_to_play as int, card, mid));
                assert(self.card_collection == mid.card_collection);
            }
        }
    }

    /// Defend: the defending card leaves the defender's hand and joins the
    /// front undefended card as a finished pair. When nothing is left to
    /// defend, the trick returns to the current attacker.
    pub fn execute_defend(&mut self, card: CardId)
        requires
            old(self).wf(),
            !old(self).is_end_state,
            old(self).current_action == ActionKind::Defend,
            old(self).can_remove(old(self).defender as int, card),
            valid_id(card),
        ensures
            final(self).wf(),
            forall|x: CardId|
                final(self).pool().contains(x) ==> old(self).pool().contains(x),
            !final(self).is_end_state,
            final(self).pairs_finished@ == old(self).pairs_finished@.push(
                (old(self).cards_to_defend@[0], card),
            ),
            final(self).cards_to_defend@ == old(self).cards_to_defend@.update(
                0,
                old(self).cards_to_defend@.last(),
            ).drop_last(),
            final(self).cards_to_defend@.len() == old(self).cards_to_defend@.len() - 1,
            final(self).cards_to_defend@.len() == 0 ==> final(self).current_action
                == ActionKind::Attack && final(self).player_to_play == final(self).attackers@[
                final(self).current_attacker as int],
            final(self).cards_to_defend@.len() > 0 ==> final(self).current_action
                == ActionKind::Defend && final(self).player_to_play == old(self).defender,
            final(self).discard == old(self).discard,
            final(self).deck == old(self).deck,
            final(self).attackers == old(self).attackers,
            final(self).defender == old(self).defender,
            final(self).current_attacker == old(self).current_attacker,
            final(self).num_players == old(self).num_players,
            final(self).main_attacker == old(self).main_attacker,
            final(self).reflected_trumps == old(self).reflected_trumps,
            final(self).hands().len() == old(self).hands().len(),
            final(self).hand(old(self).defender as int).len() == old(self).hand(
                old(self).defender as int,
            ).len() - 1,
            forall|q: int|
                0 <= q < old(self).hands().len() && q != old(self).defender as int
                    ==> final(self).hands()[q] == old(self).hands()[q],
            forall|x: CardId|
                final(self).nonpub().contains(x) <==> (old(self).nonpub().contains(x) && x
                    != card),
            final(self).is_end_state == old(self).is_end_state,
            final(self).loser == old(self).loser,
            final(self).draw_order == old(self).draw_order,
            final(self).attacker_to_start_throwing == old(self).attacker_to_start_throwing,
            final(self).last_played_attacker == old(self).last_played_attacker,
            removal_view(*old(self), old(self).defender as int, card, *final(self)),
    {
        let ghost prectd = self.cards_to_defend@;
        self.discard_from_hand(self.player_to_play, card);
        let ghost m1 = *self;
        let front = self.cards_to_defend.swap_remove(0);
        let ghost mid = *self;
        let ghost prepairs = self.pairs_finished@;
        self.pairs_finished.push((front, card));
        if self.cards_to_defend.len() == 0 {
            self.player_to_play = self.attackers[self.current_attacker as usize];
            self.current_action = ActionKind::Attack;
        }
        proof {
            crate::collection::lemma_ids_mset_swap_remove(prectd, 0);
            assert(pairs_mset(self.pairs_finished@) =~= pairs_mset(prepairs).insert(front).insert(
                card)) by {
                assert(self.pairs_finished@.drop_last() =~= prepairs);
                assert(self.pairs_finished@.last() == (front, card));
            }
            assert forall|x: CardId|
                self.placed_mset().count(x) == old(self).placed_mset().count(x) by {
                assert(ids_mset(mid.cards_to_defend@).insert(front).count(x) == ids_mset(
                    prectd).count(x));
                assert(pairs_mset(self.pairs_finished@).count(x) == pairs_mset(prepairs).insert(
                    front).insert(card).count(x));
            }
            assert(self.placed_mset() =~= old(self).placed_mset());
            assert(self.conserved());
            assert(self.counts_ok());
            assert(valid_id(front) && !m1.nonpub().contains(front)) by {
                assert(prectd[0] == front);
                assert(valid_id(old(self).cards_to_defend@[0]));
                assert(!old(self).nonpub().contains(front));
            }
            assert forall|i: int|
                0 <= i < self.cards_to_defend@.len() implies valid_id(
                #[trigger] self.cards_to_defend@[i],
            ) && !m1.nonpub().contains(self.cards_to_defend@[i]) by {
                let src = if i == 0 && prectd.len() > 1 {
                    prectd.len() - 1
                } else {
                    i
                };
                assert(self.cards_to_defend@[i] == prectd[src]);
                assert(valid_id(old(self).cards_to_defend@[src]));
                assert(!old(self).nonpub().contains(old(self).cards_to_defend@[src]));
            }
            lemma_cards_ok_frame(m1, *self);
            assert(self.cards_ok());
            assert(self.phase_ok()) by {
                assert(self.cards_to_defend@.len() == prectd.len() - 1);
            }
            assert(removal_view(*old(self), old(self).defender as int, card, *self)) by {
                assert(removal_view(*old(self), old(self).defender as int, card, m1));
                assert(self.card_collection == m1.card_collection);
            }
        }
    }

    /// Pickup: the defender adds every table card, the undefended ones and
    /// the finished pairs, to their hand, publicly; the table empties. The
    /// cards gained are, as a multiset, exactly what lay on the table.
    pub fn defender_pickup(&mut self)
        requires
            old(self).conserved(),
            old(self).counts_ok(),
            old(self).cards_ok(),
            (old(self).defender as int) < old(self).hands().len(),
        ensures
            final(self).conserved(),
            final(self).counts_ok(),
            final(self).cards_ok(),
            hand_mset(final(self).hand(old(self).defender as int)) =~= hand_mset(
                old(self).hand(old(self).defender as int),
            ).add(ids_mset(old(self).cards_to_defend@)).add(pairs_mset(old(self).pairs_finished@)),
            hand_unknowns(final(self).hand(old(self).defender as int)) == hand_unknowns(
                old(self).hand(old(self).defender as int),
            ),
            final(self).hand(old(self).defender as int).len() == old(self).hand(
                old(self).defender as int,
            ).len() + old(self).cards_to_defend@.len() + 2 * old(self).pairs_finished@.len(),
            forall|j: int|
                0 <= j < old(self).hand(old(self).defender as int).len() ==> final(self).hand(
                    old(self).defender as int,
                )[j] == old(self).hand(old(self).defender as int)[j],
            forall|t: int|
                0 <= t < old(self).cards_to_defend@.len() ==> final(self).hand(
                    old(self).defender as int,
                )[old(self).hand(old(self).defender as int).len() + t] == ((
                #[trigger] old(self).cards_to_defend@[t]).0, old(self).cards_to_defend@[t].1, true),
            forall|t: int|
                0 <= t < old(self).pairs_finished@.len() ==> final(self).hand(
                    old(self).defender as int,
                )[old(self).hand(old(self).defender as int).len() + old(
                    self,
                ).cards_to_defend@.len() + 2 * t] == ((#[trigger] old(self).pairs_finished@[t]).0.0,
                    old(self).pairs_finished@[t].0.1, true) && final(self).hand(
                    old(self).defender as int,
                )[old(self).hand(old(self).defender as int).len() + old(
                    self,
                ).cards_to_defend@.len() + 2 * t + 1] == (old(self).pairs_finished@[t].1.0,
                    old(self).pairs_finished@[t].1.1, true),
            final(self).cards_to_defend@.len() == 0,
            final(self).pairs_finished@.len() == 0,
            final(self).hands().len() == old(self).hands().len(),
            forall|q: int|
                0 <= q < old(self).hands().len() && q != old(self).defender as int
                    ==> final(self).hands()[q] == old(self).hands()[q],
            final(self).deck == old(self).deck,
            final(self).discard == old(self).discard,
            final(self).card_collection.non_public == old(self).card_collection.non_public,
            final(self).card_collection.unknown == old(self).card_collection.unknown,
            final(self).card_collection.trump_suit == old(self).card_collection.trump_suit,
            final(self).reflected_trumps == old(self).reflected_trumps,
            GameState::same_turn_fields(*old(self), *final(self)),
    {
        let d = self.defender as usize;
        let ghost oldh = self.hand(self.defender as int);
        let ghost prehands = self.hands();
        let ghost octd = self.cards_to_defend@;
        let ghost opairs = self.pairs_finished@;
        let mut hand = copy_vec(&self.card_collection.hands[d]);
        let n1 = self.cards_to_defend.len();
        let mut i: usize = 0;
        while i < n1
            invariant
                n1 == octd.len(),
                i <= n1,
                self.cards_to_defend@ == octd,
                hand_mset(hand@) =~= hand_mset(oldh).add(ids_mset(octd.subrange(0, i as int))),
                hand_unknowns(hand@) == hand_unknowns(oldh),
                hand@.len() == oldh.len() + i,
                forall|j: int| 0 <= j < oldh.len() ==> hand@[j] == oldh[j],
                forall|t: int|
                    0 <= t < i as int ==> hand@[oldh.len() + t] == ((#[trigger] octd[t]).0,
                        octd[t].1, true),
                forall|j: int| 0 <= j < hand@.len() ==> old(self).slot_ok(#[trigger] hand@[j]),
            decreases n1 - i,
        {
            let c = self.cards_to_defend[i];
            let ghost preh = hand@;
            hand.push((c.0, c.1, true));
            proof {
                crate::collection::lemma_hand_mset_push(preh, (c.0, c.1, true));
                assert(octd.subrange(0, i as int + 1).drop_last() =~= octd.subrange(0, i as int));
                assert(octd.subrange(0, i as int + 1).last() == octd[i as int]);
                assert(valid_id(c) && !old(self).nonpub().contains(c));
                assert(old(self).slot_ok((c.0, c.1, true)));
            }
            i = i + 1;
        }
        proof {
            assert(octd.subrange(0, n1 as int) =~= octd);
        }
        let n2 = self.pairs_finished.len();
        let mut k: usize = 0;
        while k < n2
            invariant
                n2 == opairs.len(),
                k <= n2,
                self.pairs_finished@ == opairs,
                hand_mset(hand@) =~= hand_mset(oldh).add(ids_mset(octd)).add(
                    pairs_mset(opairs.subrange(0, k as int))),
                hand_unknowns(hand@) == hand_unknowns(oldh),
                hand@.len() == oldh.len() + octd.len() + 2 * k,
                forall|j: int| 0 <= j < oldh.len() ==> hand@[j] == oldh[j],
                forall|t: int|
                    0 <= t < octd.len() ==> hand@[oldh.len() + t] == ((#[trigger] octd[t]).0,
                        octd[t].1, true),
                forall|t: int|
                    0 <= t < k as int ==> hand@[oldh.len() + octd.len() + 2 * t] == ((
                    #[trigger] opairs[t]).0.0, opairs[t].0.1, true) && hand@[oldh.len()
                        + octd.len() + 2 * t + 1] == (opairs[t].1.0, opairs[t].1.1, true),
                forall|j: int| 0 <= j < hand@.len() ==> old(self).slot_ok(#[trigger] hand@[j]),
            decreases n2 - k,
        {
            let pair = self.pairs_finished[k];
            let ghost preh = hand@;
            hand.push((pair.0.0, pair.0.1, true));
            let ghost preh2 = hand@;
            hand.push((pair.1.0, pair.1.1, true));
            proof {
                crate::collection::lemma_hand_mset_push(preh, (pair.0.0, pair.0.1, true));
                crate::collection::lemma_hand_mset_push(preh2, (pair.1.0, pair.1.1, true));
                assert(opairs.subrange(0, k as int + 1).drop_last() =~= opairs.subrange(
                    0,
                    k as int,
                ));
                assert(opairs.subrange(0, k as int + 1).last() == opairs[k as int]);
                assert(valid_id(pair.0) && !old(self).nonpub().contains(pair.0));
                assert(valid_id(pair.1) && !old(self).nonpub().contains(pair.1));
                assert(old(self).slot_ok((pair.0.0, pair.0.1, true)));
                assert(old(self).slot_ok((pair.1.0, pair.1.1, true)));
            }
            k = k + 1;
        }
        proof {
            assert(opairs.subrange(0, n2 as int) =~= opairs);
        }
        self.card_collection.hands[d] = hand;
        self.cards_to_defend = Vec::new();
        self.pairs_finished = Vec::new();
        proof {
            let newh = self.hand(old(self).defender as int);
            assert(self.hands() == prehands.update(old(self).defender as int, self.hands()[
                old(self).defender as int]));
            lemma_hands_mset_update(prehands, old(self).defender as int, self.hands()[
                old(self).defender as int]);
            assert forall|x: CardId|
                self.placed_mset().count(x) == old(self).placed_mset().count(x) by {
                assert(hands_mset(self.hands()).add(hand_mset(oldh)).count(x) == hands_mset(
                    prehands).add(hand_mset(newh)).count(x));
                assert(hand_mset(newh).count(x) == hand_mset(oldh).add(ids_mset(octd)).add(
                    pairs_mset(opairs)).count(x));
            }
            assert(self.placed_mset() =~= old(self).placed_mset());
            assert(self.conserved());
            assert(self.counts_ok()) by {
                assert(hands_unknowns(self.hands()) + hand_unknowns(oldh) == hands_unknowns(
                    prehands) + hand_unknowns(newh));
            }
            assert(self.cards_ok()) by {
                assert forall|i2: int|
                    0 <= i2 < self.deck@.len() implies self.deck_entry_ok(
                    #[trigger] self.deck@[i2]) by {
                    assert(old(self).deck_entry_ok(old(self).deck@[i2]));
                }
                assert forall|q: int, j: int|
                    0 <= q < self.hands().len() && 0 <= j < self.hand(q).len() implies self.slot_ok(
                    #[trigger] self.hand(q)[j],
                ) by {
                    if q == old(self).defender as int {
                        assert(old(self).slot_ok(newh[j]));
                    } else {
                        assert(self.hand(q) == old(self).hand(q));
                        assert(old(self).slot_ok(old(self).hand(q)[j]));
                    }
                }
            }
        }
    }

    /// Refill every hand in draw order to six cards from the top of the
    /// deck.
    pub fn refill_all(&mut self)
        requires
            old(self).conserved(),
            old(self).counts_ok(),
            old(self).cards_ok(),
            old(self).hands().len() == old(self).num_players as int,
            forall|i: int|
                0 <= i < old(self).draw_order@.len()
                    ==> (#[trigger] old(self).draw_order@[i] as int) < old(self).num_players as int,
        ensures
            final(self).conserved(),
            final(self).counts_ok(),
            final(self).cards_ok(),
            final(self).hands().len() == old(self).hands().len(),
            final(self).deck@.len() <= old(self).deck@.len(),
            final(self).deck@ == old(self).deck@.subrange(0, final(self).deck@.len() as int),
            final(self).pool() == old(self).pool(),
            final(self).nonpub() == old(self).nonpub(),
            final(self).card_collection.trump_suit == old(self).card_collection.trump_suit,
            forall|p: int, j: int|
                0 <= p < old(self).hands().len() && 0 <= j < old(self).hand(p).len()
                    ==> #[trigger] final(self).hand(p)[j] == old(self).hand(p)[j],
            forall|p: int|
                0 <= p < old(self).hands().len() ==> #[trigger] final(self).hand(p).len() >= old(
                    self,
                ).hand(p).len(),
            GameState::same_turn_fields(*old(self), *final(self)),
            GameState::same_table_fields(*old(self), *final(self)),
        {
        let n = self.draw_order.len();
        let mut i: usize = 0;
        while i < n
            invariant
                n == self.draw_order@.len(),
                i <= n,
                self.conserved(),
                self.counts_ok(),
                self.cards_ok(),
                self.hands().len() == old(self).hands().len(),
                self.num_players == old(self).num_players,
                self.deck@.len() <= old(self).deck@.len(),
                self.deck@ == old(self).deck@.subrange(0, self.deck@.len() as int),
                self.pool() == old(self).pool(),
                self.nonpub() == old(self).nonpub(),
                self.card_collection.trump_suit == old(self).card_collection.trump_suit,
                forall|p: int, j: int|
                    0 <= p < old(self).hands().len() && 0 <= j < old(self).hand(p).len()
                        ==> #[trigger] self.hand(p)[j] == old(self).hand(p)[j],
                forall|p: int|
                    0 <= p < old(self).hands().len() ==> #[trigger] self.hand(p).len() >= old(
                        self,
                    ).hand(p).len(),
                GameState::same_turn_fields(*old(self), *self),
                GameState::same_table_fields(*old(self), *self),
            decreases n - i,
        {
            let p = self.draw_order[i];
            let ghost pre = *self;
            self.fill_hand(p);
            proof {
                assert(self.deck@ =~= old(self).deck@.subrange(0, self.deck@.len() as int));
                assert forall|q: int, j: int|
                    0 <= q < old(self).hands().len() && 0 <= j < old(self).hand(q).len() implies
                    #[trigger] self.hand(q)[j] == old(self).hand(q)[j] by {
                    if q == p as int {
                        assert(self.hand(q)[j] == pre.hand(q)[j]);
                        assert(pre.hand(q)[j] == old(self).hand(q)[j]);
                    } else {
                        assert(self.hands()[q] == pre.hands()[q]);
                        assert(pre.hand(q)[j] == old(self).hand(q)[j]);
                    }
                }
                assert forall|q: int|
                    0 <= q < old(self).hands().len() implies #[trigger] self.hand(q).len() >= old(
                    self,
                ).hand(q).len() by {
                    if q == p as int {
                        assert(self.hand(q).len() >= pre.hand(q).len());
                    } else {
                        assert(self.hands()[q] == pre.hands()[q]);
                    }
                    assert(pre.hand(q).len() >= old(self).hand(q).len());
                }
            }
            i = i + 1;
        }
    }

    /// Pass on attacking: the next attacker is to move. When the turn comes
    /// back round to the attacker who played last, the defense succeeded:
    /// the finished pairs are burnt to the discard, every hand refills, and
    /// the defender opens the next trick.
    pub fn execute_passattack(&mut self)
        requires
            old(self).wf(),
            !old(self).is_end_state,
            old(self).current_action == ActionKind::Attack,
        ensures
            final(self).wf(),
            forall|x: CardId|
                final(self).pool().contains(x) ==> old(self).pool().contains(x),
            ({
                let len = old(self).attackers@.len() as int;
                let adv = old(self).attackers@[((old(self).current_attacker as int) + 1) % len];
                if adv != old(self).last_played_attacker {
                    &&& !final(self).is_end_state
                    &&& final(self).current_action == ActionKind::Attack
                    &&& final(self).current_attacker as int == ((old(self).current_attacker as int)
                        + 1) % len
                    &&& final(self).player_to_play == adv
                    &&& final(self).card_collection == old(self).card_collection
                    &&& final(self).deck == old(self).deck
                    &&& final(self).pairs_finished == old(self).pairs_finished
                    &&& final(self).discard == old(self).discard
                    &&& final(self).cards_to_defend == old(self).cards_to_defend
                    &&& final(self).reflected_trumps == old(self).reflected_trumps
                    &&& final(self).attackers == old(self).attackers
                    &&& final(self).defender == old(self).defender
                    &&& final(self).draw_order == old(self).draw_order
                    &&& final(self).attacker_to_start_throwing == old(
                        self,
                    ).attacker_to_start_throwing
                    &&& final(self).last_played_attacker == old(self).last_played_attacker
                    &&& final(self).main_attacker == old(self).main_attacker
                    &&& final(self).loser == old(self).loser
                } else {
                    &&& ids_mset(final(self).discard@) =~= ids_mset(old(self).discard@).add(
                        pairs_mset(old(self).pairs_finished@))
                    &&& final(self).pairs_finished@.len() == 0
                    &&& final(self).cards_to_defend@.len() == 0
                    &&& (!final(self).is_end_state ==> final(self).current_action
                        == ActionKind::Attack)
                    &&& final(self).main_attacker == old(self).defender
                    &&& final(self).deck@.len() <= old(self).deck@.len()
                    &&& final(self).deck@ == old(self).deck@.subrange(
                        0,
                        final(self).deck@.len() as int,
                    )
                }
            }),
            final(self).num_players == old(self).num_players,
            forall|x: CardId|
                final(self).nonpub().contains(x) ==> old(self).nonpub().contains(x),
    {
        let len = self.attackers.len();
        self.current_attacker = ((self.current_attacker as usize + 1) % len) as u8;
        self.player_to_play = self.attackers[self.current_attacker as usize];
        proof {
            vstd::arithmetic::div_mod::lemma_mod_bound(
                old(self).current_attacker as int + 1,
                len as int,
            );
        }
        if self.player_to_play == self.last_played_attacker {
            // burn the finished pairs
            let ghost predisc = self.discard@;
            let ghost opairs = self.pairs_finished@;
            let np2 = self.pairs_finished.len();
            let mut k: usize = 0;
            while k < np2
                invariant
                    np2 == opairs.len(),
                    k <= np2,
                    self.pairs_finished@ == opairs,
                    ids_mset(self.discard@) =~= ids_mset(predisc).add(
                        pairs_mset(opairs.subrange(0, k as int))),
                    forall|j: int|
                        0 <= j < self.discard@.len() ==> valid_id(#[trigger] self.discard@[j])
                            && !self.nonpub().contains(self.discard@[j]),
                    self.card_collection == old(self).card_collection,
                    self.deck == old(self).deck,
                    self.cards_to_defend == old(self).cards_to_defend,
                    self.reflected_trumps == old(self).reflected_trumps,
                    self.attackers == old(self).attackers,
                    self.defender == old(self).defender,
                    self.num_players == old(self).num_players,
                    self.main_attacker == old(self).main_attacker,
                    self.draw_order == old(self).draw_order,
                    self.is_end_state == old(self).is_end_state,
                    self.loser == old(self).loser,
                    self.last_played_attacker == old(self).last_played_attacker,
                    self.attacker_to_start_throwing == old(self).attacker_to_start_throwing,
                    self.current_action == old(self).current_action,
                    (self.player_to_play as int) < self.num_players as int,
                    (self.current_attacker as int) < self.attackers@.len(),
                decreases np2 - k,
            {
                let pair = self.pairs_finished[k];
                let ghost pd1 = self.discard@;
                self.discard.push(pair.0);
                let ghost pd2 = self.discard@;
                self.discard.push(pair.1);
                proof {
                    lemma_ids_mset_push(pd1, pair.0);
                    lemma_ids_mset_push(pd2, pair.1);
                    assert(opairs.subrange(0, k as int + 1).drop_last() =~= opairs.subrange(
                        0,
                        k as int,
                    ));
                    assert(opairs.subrange(0, k as int + 1).last() == opairs[k as int]);
                    assert(valid_id(pair.0) && !self.nonpub().contains(pair.0));
                    assert(valid_id(pair.1) && !self.nonpub().contains(pair.1));
                }
                k = k + 1;
            }
            proof {
                assert(opairs.subrange(0, np2 as int) =~= opairs);
            }
            self.pairs_finished = Vec::new();
            let ghost burned = *self;
            proof {
                assert forall|x: CardId|
                    burned.placed_mset().count(x) == old(self).placed_mset().count(x) by {
                    assert(ids_mset(burned.discard@).count(x) == ids_mset(predisc).add(
                        pairs_mset(opairs)).count(x));
                }
                assert(burned.placed_mset() =~= old(self).placed_mset());
                assert(burned.conserved());
                lemma_cards_ok_frame(*old(self), burned);
            }
            self.refill_all();
            let ghost rf = *self;
            self.main_attacker = self.defender;
            proof {
                lemma_cards_ok_frame(rf, *self);
                assert(self.conserved()) by {
                    assert(self.placed_mset() =~= rf.placed_mset());
                }
                assert(self.counts_ok());
                assert(self.cards_to_defend@.len() == 0);
                assert(self.trump_ok());
                assert(self.bottom_ok()) by {
                    if self.deck@.len() > 0 {
                        assert(self.deck@[0] == burned.deck@[0]);
                        assert(burned.deck@[0] == old(self).deck@[0]);
                    }
                }
                assert(self.reflected_ok()) by {
                    assert(self.reflected_trumps == old(self).reflected_trumps);
                    assert(self.card_collection.trump_suit
                        == old(self).card_collection.trump_suit);
                }
                assert(self.seats_ok());
                assert(!self.is_end_state);
            }
            self.new_trick();
        } else {
            proof {
                assert(self.placed_mset() =~= old(self).placed_mset());
                lemma_cards_ok_frame(*old(self), *self);
                assert(self.wf());
            }
        }
    }

    /// Take: the defender gives up; the trick moves to the throw round,
    /// starting at the current attacker.
    pub fn execute_take(&mut self)
        requires
            old(self).wf(),
            !old(self).is_end_state,
            old(self).current_action == ActionKind::Defend,
        ensures
            final(self).wf(),
            forall|x: CardId|
                final(self).pool().contains(x) ==> old(self).pool().contains(x),
            !final(self).is_end_state,
            final(self).current_action == ActionKind::ThrowCards,
            final(self).attacker_to_start_throwing == old(self).current_attacker,
            final(self).player_to_play == old(self).attackers@[old(self).current_attacker as int],
            final(self).card_collection == old(self).card_collection,
            final(self).deck == old(self).deck,
            final(self).cards_to_defend == old(self).cards_to_defend,
            final(self).pairs_finished == old(self).pairs_finished,
            final(self).discard == old(self).discard,
            final(self).attackers == old(self).attackers,
            final(self).defender == old(self).defender,
            final(self).current_attacker == old(self).current_attacker,
            final(self).num_players == old(self).num_players,
            final(self).main_attacker == old(self).main_attacker,
            final(self).reflected_trumps == old(self).reflected_trumps,
            final(self).is_end_state == old(self).is_end_state,
            final(self).loser == old(self).loser,
            final(self).draw_order == old(self).draw_order,
            final(self).last_played_attacker == old(self).last_played_attacker,
    {
        let ghost pre = *self;
        self.current_action = ActionKind::ThrowCards;
        self.player_to_play = self.attackers[self.current_attacker as usize];
        self.attacker_to_start_throwing = self.current_attacker;
        proof {
            assert(self.placed_mset() =~= old(self).placed_mset());
            lemma_cards_ok_frame(pre, *self);
        }
    }

    /// Throw: each card of the (possibly empty) canonical throw list leaves
    /// the thrower's hand for the table, then the cursor advances. When the
    /// round returns to the attacker who started it, the defender picks up
    /// all table cards, every hand refills, and the seat left of the
    /// defender opens the next trick.
    #[verifier::rlimit(100)]
    pub fn execute_throwcards(&mut self, throw: &Vec<CardId>)
        requires
            old(self).wf(),
            !old(self).is_end_state,
            old(self).current_action == ActionKind::ThrowCards,
            distinct_ids(throw@),
            forall|i: int| 0 <= i < throw@.len() ==> valid_id(#[trigger] throw@[i]),
            forall|i: int|
                0 <= i < throw@.len() ==> hand_has_concrete(
                    old(self).hand(old(self).player_to_play as int),
                    #[trigger] throw@[i],
                ) || old(self).pool().contains(throw@[i]),
            crate::legal::missing_count(
                old(self).hand(old(self).player_to_play as int),
                throw@,
            ) <= hand_unknowns(old(self).hand(old(self).player_to_play as int)),
            throw@.len() + old(self).cards_to_defend@.len() <= old(self).hand(
                old(self).defender as int,
            ).len(),
        ensures
            final(self).wf(),
            forall|x: CardId|
                final(self).pool().contains(x) ==> old(self).pool().contains(x),
            forall|x: CardId|
                final(self).nonpub().contains(x) ==> old(self).nonpub().contains(x),
            ({
                let len = old(self).attackers@.len() as int;
                let adv = old(self).attackers@[((old(self).current_attacker as int) + 1) % len];
                if adv != old(self).attackers@[old(self).attacker_to_start_throwing as int] {
                    &&& !final(self).is_end_state
                    &&& final(self).current_action == ActionKind::ThrowCards
                    &&& final(self).cards_to_defend@ == old(self).cards_to_defend@ + throw@
                    &&& final(self).pairs_finished == old(self).pairs_finished
                    &&& final(self).discard == old(self).discard
                    &&& final(self).deck == old(self).deck
                    &&& final(self).player_to_play == adv
                    &&& final(self).current_attacker as int == ((old(
                        self,
                    ).current_attacker as int) + 1) % len
                    &&& final(self).hand(old(self).player_to_play as int).len() == old(self).hand(
                        old(self).player_to_play as int,
                    ).len() - throw@.len()
                    &&& final(self).hands().len() == old(self).hands().len()
                    &&& forall|q: int|
                        0 <= q < old(self).hands().len() && q != old(self).player_to_play as int
                            ==> final(self).hands()[q] == old(self).hands()[q]
                    &&& final(self).attackers == old(self).attackers
                    &&& final(self).defender == old(self).defender
                    &&& final(self).draw_order == old(self).draw_order
                    &&& final(self).attacker_to_start_throwing == old(
                        self,
                    ).attacker_to_start_throwing
                    &&& final(self).last_played_attacker == old(self).last_played_attacker
                    &&& final(self).main_attacker == old(self).main_attacker
                    &&& final(self).reflected_trumps == old(self).reflected_trumps
                    &&& final(self).loser == old(self).loser
                } else {
                    let base = old(self).hand(old(self).defender as int).len() as int;
                    let gained = old(self).cards_to_defend@ + throw@;
                    &&& final(self).main_attacker == old(self).attackers@[1int % len]
                    &&& final(self).cards_to_defend@.len() == 0
                    &&& final(self).pairs_finished@.len() == 0
                    &&& (!final(self).is_end_state ==> final(self).current_action
                        == ActionKind::Attack)
                    &&& final(self).discard == old(self).discard
                    &&& final(self).deck@.len() <= old(self).deck@.len()
                    &&& final(self).deck@ == old(self).deck@.subrange(
                        0,
                        final(self).deck@.len() as int,
                    )
                    &&& final(self).hand(old(self).defender as int).len() >= base + gained.len()
                        + 2 * old(self).pairs_finished@.len()
                    &&& forall|j: int|
                        0 <= j < base ==> #[trigger] final(self).hand(old(self).defender as int)[j]
                            == old(self).hand(old(self).defender as int)[j]
                    &&& forall|t: int|
                        0 <= t < gained.len() ==> final(self).hand(old(self).defender as int)[base
                            + t] == ((#[trigger] gained[t]).0, gained[t].1, true)
                    &&& forall|t: int|
                        0 <= t < old(self).pairs_finished@.len() ==> final(self).hand(
                            old(self).defender as int,
                        )[base + gained.len() + 2 * t] == ((
                        #[trigger] old(self).pairs_finished@[t]).0.0,
                            old(self).pairs_finished@[t].0.1, true) && final(self).hand(
                            old(self).defender as int,
                        )[base + gained.len() + 2 * t + 1] == (old(self).pairs_finished@[t].1.0,
                            old(self).pairs_finished@[t].1.1, true)
                }
            }),
            final(self).num_players == old(self).num_players,
    {
        let p = self.player_to_play;
        let ghost octd = self.cards_to_defend@;
        let ghost oldh = old(self).hand(p as int);
        let n = throw.len();
        proof {
            assert(throw@.skip(0) =~= throw@);
            assert(self.cards_to_defend@ =~= octd + throw@.subrange(0, 0));
        }
        let mut i: usize = 0;
        while i < n
            invariant
                n == throw@.len(),
                i <= n,
                p == old(self).player_to_play,
                self.conserved(),
                self.counts_ok(),
                self.cards_ok(),
                self.cards_to_defend@ =~= octd + throw@.subrange(0, i as int),
                forall|j: int|
                    i as int <= j < n as int ==> hand_has_concrete(
                        self.hand(p as int),
                        #[trigger] throw@[j],
                    ) || self.pool().contains(throw@[j]),
                crate::legal::missing_count(self.hand(p as int), throw@.skip(i as int))
                    <= hand_unknowns(self.hand(p as int)),
                self.hand(p as int).len() == oldh.len() - i,
                self.hands().len() == old(self).hands().len(),
                forall|q: int|
                    0 <= q < old(self).hands().len() && q != p as int ==> self.hands()[q] == old(
                        self,
                    ).hands()[q],
                forall|x: CardId| self.nonpub().contains(x) ==> old(self).nonpub().contains(x),
                forall|x: CardId| self.pool().contains(x) ==> old(self).pool().contains(x),
                self.deck == old(self).deck,
                self.pairs_finished == old(self).pairs_finished,
                self.discard == old(self).discard,
                self.reflected_trumps == old(self).reflected_trumps,
                self.card_collection.trump_suit == old(self).card_collection.trump_suit,
                GameState::same_turn_fields(*old(self), *self),
            decreases n - i,
        {
            let t = throw[i];
            let ghost pre = *self;
            let ghost rest = throw@.skip(i as int);
            let ghost rest1 = throw@.skip(i as int + 1);
            proof {
                assert(rest =~= seq![t] + rest1);
                lemma_missing_add(pre.hand(p as int), seq![t], rest1);
                assert(crate::legal::missing_count(pre.hand(p as int), seq![t]) == (
                if hand_has_concrete(pre.hand(p as int), t) {
                    0nat
                } else {
                    1nat
                })) by {
                    assert(seq![t].drop_last() =~= Seq::<CardId>::empty());
                    assert(seq![t].last() == t);
                    assert(crate::legal::missing_count(
                        pre.hand(p as int),
                        Seq::<CardId>::empty(),
                    ) == 0);
                }
                if !hand_has_concrete(pre.hand(p as int), t) {
                    assert(hand_unknowns(pre.hand(p as int)) >= 1);
                }
                assert(pre.can_remove(p as int, t));
            }
            self.discard_from_hand(p, t);
            let ghost m1 = *self;
            let ghost prectd = self.cards_to_defend@;
            self.cards_to_defend.push(t);
            proof {
                lemma_ids_mset_push(prectd, t);
                // conservation: the thrown identity moved from hand to table
                assert forall|x: CardId|
                    self.placed_mset().count(x) == pre.placed_mset().count(x) by {
                    assert(m1.placed_mset().insert(t).count(x) == pre.placed_mset().count(x));
                    assert(ids_mset(self.cards_to_defend@).count(x) == ids_mset(prectd).insert(
                        t).count(x));
                }
                assert(self.placed_mset() =~= pre.placed_mset());
                assert(self.conserved());
                assert(self.counts_ok());
                assert(valid_id(t) && !m1.nonpub().contains(t));
                lemma_cards_ok_frame(m1, *self);
                assert(self.cards_to_defend@ =~= octd + throw@.subrange(0, i as int + 1)) by {
                    assert(throw@.subrange(0, i as int + 1) =~= throw@.subrange(0, i as int).push(
                        t));
                }
                // the rest of the throw stays removable
                assert forall|j: int|
                    i as int + 1 <= j < n as int implies hand_has_concrete(
                    self.hand(p as int),
                    #[trigger] throw@[j],
                ) || self.pool().contains(throw@[j]) by {
                    assert(throw@[j] != t);
                    if hand_has_concrete(pre.hand(p as int), throw@[j]) {
                    } else {
                        assert(pre.pool().contains(throw@[j]));
                        if hand_has_concrete(pre.hand(p as int), t) {
                            assert(self.pool() == pre.pool());
                        } else {
                            lemma_ids_mset_contains(pre.pool(), throw@[j]);
                            lemma_ids_mset_contains(self.pool(), throw@[j]);
                            assert(ids_mset(self.pool()).insert(t).count(throw@[j]) == ids_mset(
                                pre.pool()).count(throw@[j]));
                        }
                    }
                }
                // the unknown slots still cover what has no concrete slot
                assert(crate::legal::missing_count(self.hand(p as int), rest1) <= hand_unknowns(
                    self.hand(p as int))) by {
                    assert forall|j: int|
                        0 <= j < rest1.len() && hand_has_concrete(
                        pre.hand(p as int),
                        #[trigger] rest1[j],
                    ) implies hand_has_concrete(self.hand(p as int), rest1[j]) by {
                        assert(rest1[j] == throw@[i as int + 1 + j]);
                        assert(rest1[j] != t);
                    }
                    lemma_missing_mono(pre.hand(p as int), self.hand(p as int), rest1);
                    assert(crate::legal::missing_count(pre.hand(p as int), rest) ==
                        crate::legal::missing_count(pre.hand(p as int), seq![t])
                        + crate::legal::missing_count(pre.hand(p as int), rest1));
                }
            }
            i = i + 1;
        }
        proof {
            assert(throw@.subrange(0, n as int) =~= throw@);
        }
        let ghost afterloop = *self;
        let len = self.attackers.len();
        self.current_attacker = ((self.current_attacker as usize + 1) % len) as u8;
        self.player_to_play = self.attackers[self.current_attacker as usize];
        proof {
            vstd::arithmetic::div_mod::lemma_mod_bound(
                old(self).current_attacker as int + 1,
                len as int,
            );
            lemma_cards_ok_frame(afterloop, *self);
            assert(self.conserved()) by {
                assert(self.placed_mset() =~= afterloop.placed_mset());
            }
            assert(self.counts_ok());
        }
        if self.player_to_play == self.attackers[self.attacker_to_start_throwing as usize] {
            let ghost before_pickup = *self;
            self.defender_pickup();
            let ghost picked = *self;
            proof {
                assert(before_pickup.hand(old(self).defender as int) == old(self).hand(
                    old(self).defender as int));
                assert(before_pickup.cards_to_defend@ =~= old(self).cards_to_defend@ + throw@);
                assert(before_pickup.pairs_finished@ == old(self).pairs_finished@);
            }
            self.refill_all();
            let ghost rf = *self;
            self.main_attacker = self.attackers[1 % self.attackers.len()];
            proof {
                lemma_cards_ok_frame(rf, *self);
                assert(self.conserved()) by {
                    assert(self.placed_mset() =~= rf.placed_mset());
                }
                assert(self.bottom_ok()) by {
                    if self.deck@.len() > 0 {
                        assert(self.deck@[0] == old(self).deck@[0]);
                    }
                }
                assert(self.reflected_ok()) by {
                    assert(self.reflected_trumps == old(self).reflected_trumps);
                    assert(self.card_collection.trump_suit
                        == old(self).card_collection.trump_suit);
                }
                assert(self.seats_ok());
            }
            self.new_trick();
            proof {
                // the defender's hand keeps the picked-up table cards at
                // their positions; refilling only appended and the new trick
                // left every hand alone
                let d = old(self).defender as int;
                let base = old(self).hand(d).len() as int;
                let gained = old(self).cards_to_defend@ + throw@;
                assert(self.hands() == rf.hands());
                assert forall|j: int|
                    0 <= j < base implies #[trigger] self.hand(d)[j] == old(self).hand(d)[j] by {
                    assert(self.hand(d)[j] == rf.hand(d)[j]);
                    assert(rf.hand(d)[j] == picked.hand(d)[j]);
                    assert(picked.hand(d)[j] == before_pickup.hand(d)[j]);
                }
                assert forall|t: int|
                    0 <= t < gained.len() implies self.hand(d)[base + t] == ((
                #[trigger] gained[t]).0, gained[t].1, true) by {
                    assert(self.hand(d)[base + t] == rf.hand(d)[base + t]);
                    assert(rf.hand(d)[base + t] == picked.hand(d)[base + t]);
                    assert(picked.hand(d)[base + t] == ((before_pickup.cards_to_defend@[t]).0,
                        before_pickup.cards_to_defend@[t].1, true));
                    assert(before_pickup.cards_to_defend@[t] == gained[t]);
                }
                assert forall|t: int|
                    0 <= t < old(self).pairs_finished@.len() implies self.hand(d)[base
                        + gained.len() + 2 * t] == ((#[trigger] old(self).pairs_finished@[t]).0.0,
                    old(self).pairs_finished@[t].0.1, true) && self.hand(d)[base + gained.len() + 2
                        * t + 1] == (old(self).pairs_finished@[t].1.0,
                    old(self).pairs_finished@[t].1.1, true) by {
                    assert(self.hand(d)[base + gained.len() + 2 * t] == rf.hand(d)[base
                        + gained.len() + 2 * t]);
                    assert(rf.hand(d)[base + gained.len() + 2 * t] == picked.hand(d)[base
                        + gained.len() + 2 * t]);
                    assert(self.hand(d)[base + gained.len() + 2 * t + 1] == rf.hand(d)[base
                        + gained.len() + 2 * t + 1]);
                    assert(rf.hand(d)[base + gained.len() + 2 * t + 1] == picked.hand(d)[base
                        + gained.len() + 2 * t + 1]);
                    assert(before_pickup.pairs_finished@[t] == old(self).pairs_finished@[t]);
                }
                assert(self.hand(d).len() >= base + gained.len() + 2 * old(
                    self,
                ).pairs_finished@.len()) by {
                    assert(self.hand(d).len() == rf.hand(d).len());
                    assert(rf.hand(d).len() >= picked.hand(d).len());
                }
                assert(self.deck@ =~= old(self).deck@.subrange(0, self.deck@.len() as int));
            }
        } else {
            proof {
                assert(self.wf());
            }
        }
    }

    /// Turn the hand slot standing for `id` into a public concrete slot:
    /// the identity is revealed to everyone but stays in the hand.
    fn reveal_in_hand(&mut self, player_idx: u8, id: CardId)
        requires
            (player_idx as int) < old(self).hands().len(),
            old(self).conserved(),
            old(self).counts_ok(),
            old(self).cards_ok(),
            old(self).can_remove(player_idx as int, id),
            valid_id(id),
        ensures
            final(self).placed_mset() =~= old(self).placed_mset(),
            final(self).counts_ok(),
            final(self).cards_ok(),
            !final(self).nonpub().contains(id),
            forall|x: CardId|
                final(self).nonpub().contains(x) <==> (old(self).nonpub().contains(x) && x != id),
            forall|x: CardId| final(self).pool().contains(x) ==> old(self).pool().contains(x),
            final(self).hands().len() == old(self).hands().len(),
            forall|q: int|
                0 <= q < old(self).hands().len() && q != player_idx as int ==> final(self).hands()[q]
                    == old(self).hands()[q],
            final(self).hand(player_idx as int).len() == old(self).hand(player_idx as int).len(),
            hand_has_concrete(final(self).hand(player_idx as int), id),
            hand_has_concrete(old(self).hand(player_idx as int), id) ==> final(self).pool()
                == old(self).pool() && hand_unknowns(final(self).hand(player_idx as int))
                == hand_unknowns(old(self).hand(player_idx as int)) && hand_mset(
                final(self).hand(player_idx as int),
            ) =~= hand_mset(old(self).hand(player_idx as int)),
            !hand_has_concrete(old(self).hand(player_idx as int), id) ==> hand_mset(
                final(self).hand(player_idx as int),
            ) =~= hand_mset(old(self).hand(player_idx as int)).insert(id) && hand_unknowns(
                final(self).hand(player_idx as int),
            ) + 1 == hand_unknowns(old(self).hand(player_idx as int)) && ids_mset(
                final(self).pool(),
            ).insert(id) =~= ids_mset(old(self).pool()),
            reveal_view(*old(self), player_idx as int, id, *final(self)),
            final(self).deck == old(self).deck,
            final(self).card_collection.trump_suit == old(self).card_collection.trump_suit,
            GameState::same_turn_fields(*old(self), *final(self)),
            GameState::same_table_fields(*old(self), *final(self)),
    {
        let p = player_idx as usize;
        let ghost oldh = self.hand(player_idx as int);
        let ghost prehands = self.hands();
        let mut hand = copy_vec(&self.card_collection.hands[p]);
        let n = hand.len();
        let mut concrete_at: usize = n;
        let mut j: usize = 0;
        while j < n
            invariant
                n == oldh.len(),
                hand@ == oldh,
                j <= n,
                concrete_at == n || (concrete_at < j && !slot_unknown(oldh[concrete_at as int])
                    && slot_id(oldh[concrete_at as int]) == id),
                concrete_at == n ==> forall|j2: int|
                    0 <= j2 < j as int ==> slot_unknown(#[trigger] oldh[j2]) || slot_id(oldh[j2])
                        != id,
            decreases n - j,
        {
            let s = hand[j];
            if concrete_at == n && s.0 != -1 && s.0 == id.0 && s.1 == id.1 {
                concrete_at = j;
            }
            j = j + 1;
        }
        let was_concrete = concrete_at < n;
        proof {
            if !was_concrete {
                assert(!hand_has_concrete(oldh, id));
                lemma_hand_unknowns_pos(oldh);
            } else {
                assert(hand_has_concrete(oldh, id)) by {
                    assert(!slot_unknown(oldh[concrete_at as int]) && slot_id(
                        oldh[concrete_at as int]) == id);
                }
            }
        }
        let mut at: usize = 0;
        if was_concrete {
            at = concrete_at;
        } else {
            let mut found = false;
            let mut k: usize = 0;
            while k < n
                invariant
                    n == oldh.len(),
                    hand@ == oldh,
                    k <= n,
                    found ==> at < n && slot_unknown(oldh[at as int]),
                    !found ==> forall|j2: int|
                        0 <= j2 < k as int ==> !slot_unknown(#[trigger] oldh[j2]),
                decreases n - k,
            {
                if !found && hand[k].0 == -1 {
                    at = k;
                    found = true;
                }
                k = k + 1;
            }
            proof {
                lemma_hand_unknowns_pos(oldh);
                assert(found);
            }
            let found_pool = remove_id(&mut self.card_collection.unknown, id);
        }
        hand[at] = (id.0, id.1, true);
        proof {
            lemma_hand_mset_update(oldh, at as int, (id.0, id.1, true));
            if was_concrete {
                assert(slot_mset(oldh[at as int]) =~= Multiset::empty().insert(id));
            } else {
                assert(slot_mset(oldh[at as int]) =~= Multiset::<CardId>::empty());
            }
            assert(slot_mset((id.0, id.1, true)) =~= Multiset::empty().insert(id));
        }
        self.card_collection.hands[p] = hand;
        let found_np = remove_id(&mut self.card_collection.non_public, id);
        proof {
            let newh = self.hand(player_idx as int);
            let oldpool = old(self).pool();
            let oldnp = old(self).nonpub();
            assert(newh == oldh.update(at as int, (id.0, id.1, true)));
            assert(self.hands() == prehands.update(player_idx as int, self.hands()[
                player_idx as int]));
            lemma_hands_mset_update(prehands, player_idx as int, self.hands()[player_idx as int]);
            old(self).lemma_pool_distinct();
            assert forall|x: CardId|
                self.placed_mset().count(x) == old(self).placed_mset().count(x) by {
                assert(hand_mset(newh).add(slot_mset(oldh[at as int])).count(x) == hand_mset(
                    oldh).add(slot_mset((id.0, id.1, true))).count(x));
                assert(hands_mset(self.hands()).add(hand_mset(oldh)).count(x) == hands_mset(
                    prehands).add(hand_mset(newh)).count(x));
                if !was_concrete {
                    assert(ids_mset(self.pool()).insert(id).count(x) == ids_mset(oldpool).count(
                        x));
                }
            }
            assert(self.placed_mset() =~= old(self).placed_mset());
            assert(self.counts_ok()) by {
                assert(hand_unknowns(newh) + (if slot_unknown(oldh[at as int]) {
                    1nat
                } else {
                    0nat
                }) == hand_unknowns(oldh) + 0);
                assert(hands_unknowns(self.hands()) + hand_unknowns(oldh) == hands_unknowns(
                    prehands) + hand_unknowns(newh));
            }
            assert(hand_has_concrete(newh, id)) by {
                assert(newh[at as int] == (id.0, id.1, true));
            }
            assert(self.cards_ok()) by {
                assert forall|i: int|
                    0 <= i < self.deck@.len() implies self.deck_entry_ok(
                    #[trigger] self.deck@[i]) by {
                    assert(old(self).deck_entry_ok(old(self).deck@[i]));
                }
                assert forall|i: int|
                    0 <= i < self.nonpub().len() implies valid_id(#[trigger] self.nonpub()[i]) by {
                    assert(self.nonpub().contains(self.nonpub()[i]));
                    assert(oldnp.contains(self.nonpub()[i]));
                    let j2 = choose|j2: int|
                        0 <= j2 < oldnp.len() && oldnp[j2] == self.nonpub()[i];
                }
                assert forall|q: int, j2: int|
                    0 <= q < self.hands().len() && 0 <= j2 < self.hand(q).len() implies self.slot_ok(
                    #[trigger] self.hand(q)[j2],
                ) by {
                    if q == player_idx as int && j2 == at as int {
                        assert(newh[j2] == (id.0, id.1, true));
                        assert(!self.nonpub().contains(id));
                    } else {
                        if q == player_idx as int {
                            assert(newh[j2] == oldh[j2]);
                            assert(old(self).slot_ok(oldh[j2]));
                        } else {
                            assert(self.hand(q) == old(self).hand(q));
                            assert(old(self).slot_ok(old(self).hand(q)[j2]));
                        }
                        let s2 = self.hand(q)[j2];
                        if !slot_unknown(s2) && !s2.2 && slot_id(s2) == id {
                            // impossible: the revealed identity was unique
                            assert(hand_has_concrete(old(self).hand(q), id)) by {
                                assert(!slot_unknown(old(self).hand(q)[j2]) && slot_id(
                                    old(self).hand(q)[j2]) == id);
                            }
                            if was_concrete {
                                if q == player_idx as int {
                                    assert(j2 != at as int);
                                    if j2 < at as int {
                                        lemma_hand_unique_concrete(*old(self), q, j2, at as int);
                                    } else {
                                        lemma_hand_unique_concrete(*old(self), q, at as int, j2);
                                    }
                                } else {
                                    lemma_cross_hand_unique(
                                        *old(self),
                                        player_idx as int,
                                        q,
                                        id,
                                    );
                                }
                            } else {
                                old(self).lemma_concrete_excludes_pool(q, id);
                            }
                        }
                    }
                }
                assert forall|i: int|
                    0 <= i < self.pool().len() implies self.nonpub().contains(
                    #[trigger] self.pool()[i]) by {
                    assert(self.pool().contains(self.pool()[i]));
                    if was_concrete {
                        old(self).lemma_concrete_excludes_pool(player_idx as int, id);
                        assert(self.pool() == oldpool);
                        assert(self.pool()[i] != id);
                        assert(oldnp.contains(self.pool()[i]));
                    } else {
                        assert(oldpool.contains(self.pool()[i]) && self.pool()[i] != id);
                        assert(oldnp.contains(self.pool()[i]));
                    }
                }
            }
            // expose whether the slot was concrete or an unknown stand-in
            if was_concrete {
                assert(!slot_unknown(oldh[at as int]) && slot_id(oldh[at as int]) == id);
                assert forall|x: CardId|
                    hand_mset(newh).count(x) == hand_mset(oldh).count(x) by {
                    assert(hand_mset(newh).add(slot_mset(oldh[at as int])).count(x) == hand_mset(
                        oldh).add(slot_mset((id.0, id.1, true))).count(x));
                }
                assert(hand_mset(newh) =~= hand_mset(oldh));
                assert(self.pool() == old(self).pool());
            } else {
                assert(slot_unknown(oldh[at as int]));
                assert forall|x: CardId|
                    hand_mset(newh).count(x) == hand_mset(oldh).insert(id).count(x) by {
                    assert(hand_mset(newh).add(slot_mset(oldh[at as int])).count(x) == hand_mset(
                        oldh).add(slot_mset((id.0, id.1, true))).count(x));
                }
                assert(hand_mset(newh) =~= hand_mset(oldh).insert(id));
            }
            assert(reveal_view(*old(self), player_idx as int, id, *self));
        }
    }

    /// Reflect: the matching card leaves the defender's hand and joins the
    /// cards to defend; the defender joins the attackers in place of the
    /// next seat, which becomes the new defender.
    pub fn execute_reflect(&mut self, card: CardId)
        requires
            old(self).wf(),
            !old(self).is_end_state,
            old(self).current_action == ActionKind::Defend,
            old(self).can_remove(old(self).defender as int, card),
            valid_id(card),
            old(self).hand(old(self).reflect_target()).len() >= old(self).cards_to_defend@.len()
                + 1,
        ensures
            final(self).wf(),
            forall|x: CardId|
                final(self).pool().contains(x) ==> old(self).pool().contains(x),
            !final(self).is_end_state,
            final(self).current_action == ActionKind::Defend,
            final(self).defender == old(self).attackers@[1int % (old(self).attackers@.len() as int)],
            final(self).player_to_play == final(self).defender,
            final(self).cards_to_defend@ == old(self).cards_to_defend@.push(card),
            final(self).last_played_attacker == old(self).defender,
            final(self).pairs_finished == old(self).pairs_finished,
            final(self).discard == old(self).discard,
            final(self).deck == old(self).deck,
            final(self).reflected_trumps == old(self).reflected_trumps,
            final(self).num_players == old(self).num_players,
            final(self).main_attacker == old(self).main_attacker,
            final(self).attackers@.len() == old(self).attackers@.len(),
            final(self).attackers@.contains(old(self).defender),
            final(self).hand(old(self).defender as int).len() == old(self).hand(
                old(self).defender as int,
            ).len() - 1,
            final(self).hands().len() == old(self).hands().len(),
            forall|q: int|
                0 <= q < old(self).hands().len() && q != old(self).defender as int
                    ==> final(self).hands()[q] == old(self).hands()[q],
            forall|x: CardId|
                final(self).nonpub().contains(x) <==> (old(self).nonpub().contains(x) && x
                    != card),
            final(self).is_end_state == old(self).is_end_state,
            final(self).loser == old(self).loser,
            final(self).current_attacker == old(self).current_attacker,
            final(self).attacker_to_start_throwing == old(self).attacker_to_start_throwing,
            removal_view(*old(self), old(self).defender as int, card, *final(self)),
            ({
                let len = old(self).attackers@.len() as int;
                let upd = old(self).attackers@.update(1int % len, old(self).defender);
                &&& final(self).attackers@ == upd.remove(0).push(upd[0])
                &&& final(self).draw_order@ == upd.push(old(self).attackers@[1int % len])
            }),
    {
        let ti = 1 % self.attackers.len();
        let new_def = self.attackers[ti];
        self.discard_from_hand(self.player_to_play, card);
        let ghost m1 = *self;
        self.last_played_attacker = self.player_to_play;
        self.attackers[ti] = self.defender;
        let ghost upd = self.attackers@;
        self.defender = new_def;
        let mut dro = copy_vec(&self.attackers);
        dro.push(new_def);
        self.draw_order = dro;
        let first = self.attackers.remove(0);
        self.attackers.push(first);
        let ghost prectd = self.cards_to_defend@;
        self.cards_to_defend.push(card);
        self.current_action = ActionKind::Defend;
        self.player_to_play = self.defender;
        proof {
            lemma_ids_mset_push(prectd, card);
            assert forall|x: CardId|
                self.placed_mset().count(x) == old(self).placed_mset().count(x) by {
                assert(m1.placed_mset().insert(card).count(x) == old(self).placed_mset().count(
                    x));
                assert(ids_mset(self.cards_to_defend@).count(x) == ids_mset(prectd).insert(
                    card).count(x));
            }
            assert(self.placed_mset() =~= old(self).placed_mset());
            assert(self.conserved());
            assert(self.counts_ok());
            lemma_cards_ok_frame(m1, *self);
            // the attacker list stays a duplicate-free list of seats that
            // excludes the new defender
            let oldatt = old(self).attackers@;
            let len = oldatt.len() as int;
            assert(upd == oldatt.update(ti as int, old(self).defender));
            assert(self.attackers@ == upd.remove(0).push(upd[0]));
            assert forall|i: int|
                0 <= i < self.attackers@.len() implies exists|i2: int|
                    0 <= i2 < upd.len() && #[trigger] self.attackers@[i] == upd[i2] by {
                if i < upd.len() - 1 {
                    assert(self.attackers@[i] == upd[i + 1]);
                } else {
                    assert(self.attackers@[i] == upd[0]);
                }
            }
            assert forall|i: int, j: int|
                0 <= i < j < self.attackers@.len() implies self.attackers@[i]
                    != self.attackers@[j] by {
                let a = if i < upd.len() - 1 {
                    i + 1
                } else {
                    0
                };
                let b = if j < upd.len() - 1 {
                    j + 1
                } else {
                    0
                };
                assert(self.attackers@[i] == upd[a] && self.attackers@[j] == upd[b] && a != b);
                assert forall|x: int, y: int| 0 <= x < y < upd.len() implies upd[x] != upd[y] by {
                    if x == ti as int {
                        assert(upd[y] == oldatt[y]);
                    } else if y == ti as int {
                        assert(upd[x] == oldatt[x]);
                    } else {
                        assert(upd[x] == oldatt[x] && upd[y] == oldatt[y]);
                    }
                }
            }
            assert forall|i: int|
                0 <= i < self.attackers@.len() implies #[trigger] self.attackers@[i]
                    != self.defender by {
                let a = if i < upd.len() - 1 {
                    i + 1
                } else {
                    0
                };
                assert(self.attackers@[i] == upd[a]);
                if a != ti as int {
                    assert(upd[a] == oldatt[a]);
                    assert(oldatt[a] != oldatt[ti as int] || a == ti as int);
                }
            }
            assert(self.roles_ok());
            assert(self.phase_ok()) by {
                assert(self.hand(self.defender as int) == old(self).hand(
                    old(self).reflect_target()));
            }
            assert(self.attackers@.contains(old(self).defender)) by {
                if upd.len() >= 2 {
                    vstd::arithmetic::div_mod::lemma_small_mod(1nat, upd.len() as nat);
                    assert(ti == 1);
                    assert(upd[1] == old(self).defender);
                    assert(self.attackers@[0] == upd[1]);
                } else {
                    assert(ti == 0);
                    assert(upd[0] == old(self).defender);
                    assert(self.attackers@[0] == upd.remove(0).push(upd[0])[0]);
                    assert(self.attackers@[0] == upd[0]);
                }
            }
        }
    }

    /// Trump reflect: the matching trump is shown to everyone but stays in
    /// the defender's hand; the defender role rotates as in a reflect, the
    /// cards to defend stay, and the trump loses its reflect right for the
    /// rest of the trick.
    pub fn execute_reflecttrump(&mut self, card: CardId)
        requires
            old(self).wf(),
            !old(self).is_end_state,
            old(self).current_action == ActionKind::Defend,
            old(self).can_remove(old(self).defender as int, card),
            valid_id(card),
            card.0 == old(self).card_collection.trump_suit,
            !old(self).reflected_trumps@.contains(card),
            old(self).hand(old(self).reflect_target()).len() >= old(self).cards_to_defend@.len(),
        ensures
            final(self).wf(),
            forall|x: CardId|
                final(self).pool().contains(x) ==> old(self).pool().contains(x),
            !final(self).is_end_state,
            final(self).current_action == ActionKind::Defend,
            final(self).defender == old(self).attackers@[1int % (old(self).attackers@.len() as int)],
            final(self).player_to_play == final(self).defender,
            final(self).cards_to_defend == old(self).cards_to_defend,
            final(self).reflected_trumps@ == old(self).reflected_trumps@.push(card),
            final(self).last_played_attacker == old(self).defender,
            final(self).pairs_finished == old(self).pairs_finished,
            final(self).discard == old(self).discard,
            final(self).deck == old(self).deck,
            final(self).num_players == old(self).num_players,
            final(self).main_attacker == old(self).main_attacker,
            final(self).hand(old(self).defender as int).len() == old(self).hand(
                old(self).defender as int,
            ).len(),
            hand_has_concrete(final(self).hand(old(self).defender as int), card),
            final(self).hands().len() == old(self).hands().len(),
            forall|q: int|
                0 <= q < old(self).hands().len() && q != old(self).defender as int
                    ==> final(self).hands()[q] == old(self).hands()[q],
            forall|x: CardId|
                final(self).nonpub().contains(x) <==> (old(self).nonpub().contains(x) && x
                    != card),
            final(self).is_end_state == old(self).is_end_state,
            final(self).loser == old(self).loser,
            final(self).current_attacker == old(self).current_attacker,
            final(self).attacker_to_start_throwing == old(self).attacker_to_start_throwing,
            reveal_view(*old(self), old(self).defender as int, card, *final(self)),
            ({
                let len = old(self).attackers@.len() as int;
                let upd = old(self).attackers@.update(1int % len, old(self).defender);
                &&& final(self).attackers@ == upd.remove(0).push(upd[0])
                &&& final(self).draw_order@ == upd.push(old(self).attackers@[1int % len])
            }),
    {
        let ti = 1 % self.attackers.len();
        let new_def = self.attackers[ti];
        self.reveal_in_hand(self.player_to_play, card);
        let ghost m1 = *self;
        let ghost prerefl = self.reflected_trumps@;
        self.reflected_trumps.push(card);
        self.last_played_attacker = self.player_to_play;
        self.attackers[ti] = self.defender;
        let ghost upd = self.attackers@;
        self.defender = new_def;
        let mut dro = copy_vec(&self.attackers);
        dro.push(new_def);
        self.draw_order = dro;
        let first = self.attackers.remove(0);
        self.attackers.push(first);
        self.current_action = ActionKind::Defend;
        self.player_to_play = self.defender;
        proof {
            assert(self.placed_mset() =~= old(self).placed_mset()) by {
                assert(m1.placed_mset() =~= old(self).placed_mset());
            }
            assert(self.conserved());
            assert(self.counts_ok());
            lemma_cards_ok_frame(m1, *self);
            assert(self.reflected_ok()) by {
                assert forall|i: int, j: int|
                    0 <= i < j < self.reflected_trumps@.len() implies self.reflected_trumps@[i]
                        != self.reflected_trumps@[j] by {
                    if j == self.reflected_trumps@.len() - 1 {
                        assert(self.reflected_trumps@[j] == card);
                        assert(prerefl[i] == self.reflected_trumps@[i]);
                        assert(prerefl.contains(prerefl[i]));
                        if self.reflected_trumps@[i] == card {
                            assert(old(self).reflected_trumps@.contains(card));
                        }
                    } else {
                        assert(prerefl[i] == self.reflected_trumps@[i] && prerefl[j]
                            == self.reflected_trumps@[j]);
                    }
                }
            }
            let oldatt = old(self).attackers@;
            assert(upd == oldatt.update(ti as int, old(self).defender));
            assert(self.attackers@ == upd.remove(0).push(upd[0]));
            assert forall|i: int, j: int|
                0 <= i < j < self.attackers@.len() implies self.attackers@[i]
                    != self.attackers@[j] by {
                let a = if i < upd.len() - 1 {
                    i + 1
                } else {
                    0
                };
                let b = if j < upd.len() - 1 {
                    j + 1
                } else {
                    0
                };
                assert(self.attackers@[i] == upd[a] && self.attackers@[j] == upd[b] && a != b);
                assert forall|x: int, y: int| 0 <= x < y < upd.len() implies upd[x] != upd[y] by {
                    if x == ti as int {
                        assert(upd[y] == oldatt[y]);
                    } else if y == ti as int {
                        assert(upd[x] == oldatt[x]);
                    } else {
                        assert(upd[x] == oldatt[x] && upd[y] == oldatt[y]);
                    }
                }
            }
            assert forall|i: int|
                0 <= i < self.attackers@.len() implies exists|i2: int|
                    0 <= i2 < upd.len() && #[trigger] self.attackers@[i] == upd[i2] by {
                if i < upd.len() - 1 {
                    assert(self.attackers@[i] == upd[i + 1]);
                } else {
                    assert(self.attackers@[i] == upd[0]);
                }
            }
            assert forall|i: int|
                0 <= i < self.attackers@.len() implies #[trigger] self.attackers@[i]
                    != self.defender by {
                let a = if i < upd.len() - 1 {
                    i + 1
                } else {
                    0
                };
                assert(self.attackers@[i] == upd[a]);
                if a != ti as int {
                    assert(upd[a] == oldatt[a]);
                }
            }
            assert(self.roles_ok());
            assert(self.phase_ok()) by {
                assert(self.hand(self.defender as int) == old(self).hand(
                    old(self).reflect_target()));
                assert(old(self).cards_to_defend@.len() >= 1);
            }
        }
    }

    /// Everything the executor needs of an action to apply it without
    /// violating an invariant. Every action a determinized state's legal
    /// list offers satisfies this.
    pub open spec fn action_executable(self, a: Action) -> bool {
        if a.name == ActionKind::Attack {
            &&& self.current_action == ActionKind::Attack
            &&& self.can_remove(self.player_to_play as int, a.card)
            &&& valid_id(a.card)
            &&& self.hand(self.defender as int).len() > 0
        } else if a.name == ActionKind::Defend {
            &&& self.current_action == ActionKind::Defend
            &&& self.can_remove(self.defender as int, a.card)
            &&& valid_id(a.card)
        } else if a.name == ActionKind::Take {
            self.current_action == ActionKind::Defend
        } else if a.name == ActionKind::PassAttack {
            self.current_action == ActionKind::Attack
        } else if a.name == ActionKind::ThrowCards {
            &&& self.current_action == ActionKind::ThrowCards
            &&& distinct_ids(a.throw@)
            &&& forall|i: int| 0 <= i < a.throw@.len() ==> valid_id(#[trigger] a.throw@[i])
            &&& forall|i: int|
                0 <= i < a.throw@.len() ==> hand_has_concrete(
                    self.hand(self.player_to_play as int),
                    #[trigger] a.throw@[i],
                ) || self.pool().contains(a.throw@[i])
            &&& crate::legal::missing_count(self.hand(self.player_to_play as int), a.throw@)
                <= hand_unknowns(self.hand(self.player_to_play as int))
            &&& a.throw@.len() + self.cards_to_defend@.len() <= self.hand(
                self.defender as int,
            ).len()
        } else if a.name == ActionKind::Reflect {
            &&& self.current_action == ActionKind::Defend
            &&& self.can_remove(self.defender as int, a.card)
            &&& valid_id(a.card)
            &&& self.hand(self.reflect_target()).len() >= self.cards_to_defend@.len() + 1
        } else {
            &&& self.current_action == ActionKind::Defend
            &&& self.can_remove(self.defender as int, a.card)
            &&& valid_id(a.card)
            &&& a.card.0 == self.card_collection.trump_suit
            &&& !self.reflected_trumps@.contains(a.card)
            &&& self.hand(self.reflect_target()).len() >= self.cards_to_defend@.len()
        }
    }

    /// Apply one action. The state invariant is preserved, and no card ever
    /// returns from public to non-public.
    pub fn execute_action(&mut self, action: &Action)
        requires
            old(self).wf(),
            !old(self).is_end_state,
            old(self).action_executable(*action),
        ensures
            final(self).wf(),
            forall|x: CardId|
                final(self).pool().contains(x) ==> old(self).pool().contains(x),
            forall|x: CardId|
                final(self).nonpub().contains(x) ==> old(self).nonpub().contains(x),
            step_view(*old(self), *action, *final(self)),
    {
        if action.name == ActionKind::Attack {
            self.execute_attack(action.card);
            proof {
                assert(step_view(*old(self), *action, *self));
            }
        } else if action.name == ActionKind::Defend {
            self.execute_defend(action.card);
            proof {
                assert(step_view(*old(self), *action, *self));
            }
        } else if action.name == ActionKind::Take {
            self.execute_take();
            proof {
                assert(step_view(*old(self), *action, *self));
            }
        } else if action.name == ActionKind::PassAttack {
            self.execute_passattack();
            proof {
                assert(step_view(*old(self), *action, *self));
            }
        } else if action.name == ActionKind::ThrowCards {
            self.execute_throwcards(&action.throw);
            proof {
                let len = old(self).attackers@.len() as int;
                let adv = old(self).attackers@[((old(self).current_attacker as int) + 1) % len];
                if adv != old(self).attackers@[old(self).attacker_to_start_throwing as int] {
                    assert forall|q: int|
                        0 <= q < old(self).hands().len() && q != old(self).player_to_play as int
                            implies self.hand(q) == old(self).hand(q) by {
                        assert(self.hands()[q] == old(self).hands()[q]);
                    }
                }
                assert(step_view(*old(self), *action, *self));
            }
        } else if action.name == ActionKind::Reflect {
            self.execute_reflect(action.card);
            proof {
                assert forall|q: int|
                    0 <= q < old(self).hands().len() && q != old(self).defender as int implies
                    self.hand(q) == old(self).hand(q) by {
                    assert(self.hands()[q] == old(self).hands()[q]);
                }
                assert(step_view(*old(self), *action, *self));
            }
        } else {
            self.execute_reflecttrump(action.card);
            proof {
                assert forall|q: int|
                    0 <= q < old(self).hands().len() && q != old(self).defender as int implies
                    self.hand(q) == old(self).hand(q) by {
                    assert(self.hands()[q] == old(self).hands()[q]);
                }
                assert(step_view(*old(self), *action, *self));
            }
        }
    }
}

} // verus!
