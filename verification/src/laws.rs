//! The engine's global laws, stated once over the state invariant so that a
//! reader finds them in one place. Each is proved from what the operations
//! in the other modules establish.

use vstd::prelude::*;

use crate::cards::{Action, ActionKind, CardId, ACE_VALUE, valid_id, slot_unknown, slot_id};
use crate::collection::{full_mset, hand_unknowns, lemma_full_count};
use crate::game::GameState;
use crate::legal::{hand_has_concrete, lemma_hand_unknowns_pos};
use crate::deal::lemma_hands_unknowns_component;

verus! {

/// Card conservation: every well-formed state accounts for the full 36-card
/// deck, each identity exactly once, across the deck, the hands, the table,
/// the pool of unassigned identities and the discard. Initialization
/// establishes well-formedness and the executor preserves it, so this holds
/// of every reachable state.
pub proof fn lemma_card_conservation(s: GameState)
    requires
        s.wf(),
    ensures
        s.placed_mset() == full_mset(),
        forall|id: CardId| valid_id(id) ==> s.placed_mset().count(id) == 1,
        forall|id: CardId| !valid_id(id) ==> s.placed_mset().count(id) == 0,
{
    assert forall|id: CardId| valid_id(id) implies s.placed_mset().count(id) == 1 by {
        lemma_full_count(id);
    }
    assert forall|id: CardId| !valid_id(id) implies s.placed_mset().count(id) == 0 by {
        lemma_full_count(id);
    }
}

/// Visibility of the table: every card lying in a finished pair or among the
/// cards to defend, and every discarded card, is public — it is not in the
/// non-public set, and by the executor's guarantee (`execute_action` never
/// lets an identity return to the non-public set) it stays public.
pub proof fn lemma_table_cards_public(s: GameState)
    requires
        s.wf(),
    ensures
        forall|i: int|
            0 <= i < s.pairs_finished@.len() ==> !s.nonpub().contains(
                (#[trigger] s.pairs_finished@[i]).0,
            ) && !s.nonpub().contains(s.pairs_finished@[i].1),
        forall|i: int|
            0 <= i < s.cards_to_defend@.len() ==> !s.nonpub().contains(
                #[trigger] s.cards_to_defend@[i],
            ),
        forall|i: int|
            0 <= i < s.discard@.len() ==> !s.nonpub().contains(#[trigger] s.discard@[i]),
{
}

/// Trump-reflect uniqueness: the record of trumps that reflected this trick
/// never holds a card twice, and a recorded trump is never offered for a
/// further trump reflect in the same trick.
pub proof fn lemma_trump_reflect_unique(s: GameState, a: Action)
    requires
        s.wf(),
        !s.is_end_state,
        s.action_legal(a),
        a.name == ActionKind::ReflectTrump,
    ensures
        !s.reflected_trumps@.contains(a.card),
        forall|i: int, j: int|
            0 <= i < j < s.reflected_trumps@.len() ==> s.reflected_trumps@[i]
                != s.reflected_trumps@[j],
{
}

/// Ace-bottom rule: while the deck is non-empty, its face-up bottom card is
/// never an ace.
pub proof fn lemma_ace_never_bottom(s: GameState)
    requires
        s.wf(),
        s.deck@.len() > 0,
    ensures
        s.deck@[0].value != ACE_VALUE,
{
}

/// A player with a card in hand has a possible play: a concrete slot offers
/// its own identity, and an unknown slot can still stand for any identity of
/// the pool.
pub proof fn lemma_poss_nonempty(s: GameState, p: int)
    requires
        s.wf(),
        0 <= p < s.hands().len(),
        s.hand(p).len() > 0,
    ensures
        exists|id: CardId| s.in_poss(p, id),
{
    let s0 = s.hand(p)[0];
    if !slot_unknown(s0) {
        assert(hand_has_concrete(s.hand(p), slot_id(s0)));
        assert(s.in_poss(p, slot_id(s0)));
    } else {
        lemma_hand_unknowns_pos(s.hand(p));
        lemma_hands_unknowns_component(s.hands(), p);
        assert(s.pool().len() >= 1);
        let id = s.pool()[0];
        assert(s.pool().contains(id));
        assert(s.nonpub().contains(id));
        assert(!(exists|j: int|
            0 <= j < s.hand(p).len() && !slot_unknown(#[trigger] s.hand(p)[j]) && !s.hand(p)[j].2
                && slot_id(s.hand(p)[j]) == id)) by {
            if exists|j: int|
                0 <= j < s.hand(p).len() && !slot_unknown(#[trigger] s.hand(p)[j])
                    && !s.hand(p)[j].2 && slot_id(s.hand(p)[j]) == id {
                let j = choose|j: int|
                    0 <= j < s.hand(p).len() && !slot_unknown(#[trigger] s.hand(p)[j])
                        && !s.hand(p)[j].2 && slot_id(s.hand(p)[j]) == id;
                assert(hand_has_concrete(s.hand(p), id));
                s.lemma_concrete_excludes_pool(p, id);
            }
        }
        assert(s.in_fallback(p, id));
        assert(s.in_poss(p, id));
    }
}

/// Feasibility soundness: every legal throw action is feasible for the
/// thrower's hand: each thrown card is a concrete card of the hand or a
/// fallback candidate, and the cards without a concrete slot fit into the
/// hand's unknown slots.
pub proof fn lemma_throw_actions_feasible(s: GameState, a: Action)
    requires
        s.wf(),
        !s.is_end_state,
        s.action_legal(a),
        a.name == ActionKind::ThrowCards,
    ensures
        s.throw_feasible(s.player_to_play as int, a.throw@),
{
}

} // verus!
