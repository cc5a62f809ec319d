//! Hidden-information operations: lazily assigning concrete identities to
//! unknown slots, determinizing a position for search, and masking a state
//! down to what one player can see.

use vstd::prelude::*;
use vstd::multiset::Multiset;
use rand::rngs::StdRng;

use crate::cards::{ActionKind, Card, CardId, HandSlot, valid_id, slot_unknown, slot_id};
use crate::collection::{copy_vec, contains_id, remove_id, distinct_ids, hand_mset, hand_unknowns,
    hands_mset, hands_unknowns, ids_mset, deck_mset, deck_unknowns, card_mset, slot_mset,
    lemma_hand_mset_update, lemma_hands_mset_update, lemma_deck_mset_update,
    lemma_ids_mset_contains, lemma_ids_mset_push};
use crate::game::GameState;
use crate::legal::{hand_has_concrete, lemma_hand_unknowns_pos};
use crate::execute::{lemma_cards_ok_frame, lemma_hands_component};
use crate::rng::rng_below;

verus! {

/// A face-down deck entry makes the unknown-entry count positive.
pub proof fn lemma_deck_unknowns_pos(d: Seq<Card>, i: int)
    requires
        0 <= i < d.len(),
        d[i].is_unknown,
    ensures
        deck_unknowns(d) >= 1,
    decreases d.len(),
{
    if i == d.len() - 1 {
    } else {
        assert(d.drop_last()[i] == d[i]);
        lemma_deck_unknowns_pos(d.drop_last(), i);
    }
}

/// One hand's unknown slots are among all hands' unknown slots.
pub proof fn lemma_hands_unknowns_component(hs: Seq<Vec<HandSlot>>, p: int)
    requires
        0 <= p < hs.len(),
    ensures
        hands_unknowns(hs) >= hand_unknowns(hs[p]@),
    decreases hs.len(),
{
    if p == hs.len() - 1 {
    } else {
        assert(hs.drop_last()[p] == hs[p]);
        lemma_hands_unknowns_component(hs.drop_last(), p);
    }
}

/// With no unknown slot in any hand, the total unknown count is zero.
pub proof fn lemma_hands_unknowns_zero(hs: Seq<Vec<HandSlot>>)
    requires
        forall|p: int| 0 <= p < hs.len() ==> hand_unknowns((#[trigger] hs[p])@) == 0,
    ensures
        hands_unknowns(hs) == 0,
    decreases hs.len(),
{
    if hs.len() > 0 {
        assert(forall|p: int|
            0 <= p < hs.drop_last().len() ==> #[trigger] hs.drop_last()[p] == hs[p]);
        lemma_hands_unknowns_zero(hs.drop_last());
    }
}

/// With every deck entry revealed, the deck's unknown count is zero.
pub proof fn lemma_deck_unknowns_zero(d: Seq<Card>)
    requires
        forall|i: int| 0 <= i < d.len() ==> !(#[trigger] d[i]).is_unknown,
    ensures
        deck_unknowns(d) == 0,
    decreases d.len(),
{
    if d.len() > 0 {
        assert(forall|i: int| 0 <= i < d.drop_last().len() ==> d.drop_last()[i] == d[i]);
        lemma_deck_unknowns_zero(d.drop_last());
    }
}

impl GameState {
    /// Give the unknown hand slot at `j` the pool identity at `idx`: the
    /// identity leaves the pool, and the slot becomes a concrete private
    /// slot, or a public one when everyone saw the assignment.
    fn assign_hand_slot(&mut self, player_idx: u8, j: usize, idx: usize, make_public: bool)
        requires
            (player_idx as int) < old(self).hands().len(),
            (j as int) < old(self).hand(player_idx as int).len(),
            slot_unknown(old(self).hand(player_idx as int)[j as int]),
            (idx as int) < old(self).pool().len(),
            old(self).conserved(),
            old(self).counts_ok(),
            old(self).cards_ok(),
        ensures
            final(self).conserved(),
            final(self).counts_ok(),
            final(self).cards_ok(),
            final(self).hands().len() == old(self).hands().len(),
            forall|q: int|
                0 <= q < old(self).hands().len() && q != player_idx as int ==> final(self).hands()[q]
                    == old(self).hands()[q],
            final(self).hand(player_idx as int) == old(self).hand(player_idx as int).update(
                j as int,
                (
                    old(self).pool()[idx as int].0,
                    old(self).pool()[idx as int].1,
                    make_public,
                ),
            ),
            hand_unknowns(final(self).hand(player_idx as int)) + 1 == hand_unknowns(
                old(self).hand(player_idx as int),
            ),
            final(self).pool().len() == old(self).pool().len() - 1,
            forall|x: CardId|
                final(self).pool().contains(x) <==> (old(self).pool().contains(x) && x != old(
                    self,
                ).pool()[idx as int]),
            make_public ==> forall|x: CardId|
                final(self).nonpub().contains(x) <==> (old(self).nonpub().contains(x) && x != old(
                    self,
                ).pool()[idx as int]),
            !make_public ==> final(self).nonpub() == old(self).nonpub(),
            final(self).deck == old(self).deck,
            final(self).card_collection.trump_suit == old(self).card_collection.trump_suit,
            GameState::same_turn_fields(*old(self), *final(self)),
            GameState::same_table_fields(*old(self), *final(self)),
    {
        let p = player_idx as usize;
        let ghost oldh = self.hand(player_idx as int);
        let ghost prehands = self.hands();
        let ghost oldpool = self.pool();
        let ghost oldnp = self.nonpub();
        let id = self.card_collection.unknown[idx];
        proof {
            self.lemma_pool_distinct();
            assert(oldpool.contains(id));
            self.lemma_concrete_excludes_pool_all(id);
        }
        let found_pool = remove_id(&mut self.card_collection.unknown, id);
        let slot: HandSlot = (id.0, id.1, make_public);
        let hand = &mut self.card_collection.hands[p];
        hand[j] = slot;
        if make_public {
            let found_np = remove_id(&mut self.card_collection.non_public, id);
        }
        proof {
            let newh = self.hand(player_idx as int);
            assert(newh == oldh.update(j as int, slot));
            assert(self.hands() == prehands.update(player_idx as int, self.hands()[
                player_idx as int]));
            lemma_hand_mset_update(oldh, j as int, slot);
            lemma_hands_mset_update(prehands, player_idx as int, self.hands()[player_idx as int]);
            assert(slot_mset(oldh[j as int]) =~= Multiset::<CardId>::empty());
            assert(slot_mset(slot) =~= Multiset::empty().insert(id));
            assert forall|x: CardId|
                self.placed_mset().count(x) == old(self).placed_mset().count(x) by {
                assert(hand_mset(newh).add(slot_mset(oldh[j as int])).count(x) == hand_mset(
                    oldh).add(slot_mset(slot)).count(x));
                assert(hands_mset(self.hands()).add(hand_mset(oldh)).count(x) == hands_mset(
                    prehands).add(hand_mset(newh)).count(x));
                assert(ids_mset(self.pool()).insert(id).count(x) == ids_mset(oldpool).count(x));
            }
            assert(self.placed_mset() =~= old(self).placed_mset());
            assert(self.conserved());
            assert(self.counts_ok()) by {
                assert(hand_unknowns(newh) + 1 == hand_unknowns(oldh));
                assert(hands_unknowns(self.hands()) + hand_unknowns(oldh) == hands_unknowns(
                    prehands) + hand_unknowns(newh));
            }
            // the assigned identity is valid and was non-public
            assert(valid_id(id));
            assert(oldnp.contains(id));
            assert(self.cards_ok()) by {
                assert forall|i: int|
                    0 <= i < self.deck@.len() implies self.deck_entry_ok(
                    #[trigger] self.deck@[i]) by {
                    assert(old(self).deck_entry_ok(old(self).deck@[i]));
                    if !old(self).deck@[i].is_unknown {
                        assert(!oldnp.contains((old(self).deck@[i].suit, old(self).deck@[i].value)));
                    }
                }
                assert forall|i: int|
                    0 <= i < self.nonpub().len() implies valid_id(#[trigger] self.nonpub()[i]) by {
                    assert(self.nonpub().contains(self.nonpub()[i]));
                    assert(oldnp.contains(self.nonpub()[i]));
                    let j2 = choose|j2: int|
                        0 <= j2 < oldnp.len() && oldnp[j2] == self.nonpub()[i];
                }
                assert forall|q: int, j2: int|
                    0 <= q < self.hands().len() && 0 <= j2 < self.hand(q).len() implies self.slot_ok(
                    #[trigger] self.hand(q)[j2],
                ) by {
                    if q == player_idx as int && j2 == j as int {
                        assert(self.hand(q)[j2] == slot);
                        if make_public {
                            assert(!self.nonpub().contains(id));
                        } else {
                            assert(self.nonpub().contains(id));
                        }
                    } else {
                        let s2 = if q == player_idx as int {
                            oldh[j2]
                        } else {
                            old(self).hand(q)[j2]
                        };
                        assert(self.hand(q)[j2] == s2);
                        assert(old(self).slot_ok(s2));
                        if !slot_unknown(s2) && slot_id(s2) == id {
                            assert(hand_has_concrete(old(self).hand(q), id)) by {
                                assert(!slot_unknown(old(self).hand(q)[j2]) && slot_id(
                                    old(self).hand(q)[j2]) == id);
                            }
                            old(self).lemma_concrete_excludes_pool(q, id);
                        }
                    }
                }
                assert forall|i: int|
                    0 <= i < self.pool().len() implies self.nonpub().contains(
                    #[trigger] self.pool()[i]) by {
                    assert(self.pool().contains(self.pool()[i]));
                    assert(oldpool.contains(self.pool()[i]) && self.pool()[i] != id);
                    assert(oldnp.contains(self.pool()[i]));
                }
            }
        }
    }

    /// No hand holds `id` concretely while it floats in the pool.
    pub proof fn lemma_concrete_excludes_pool_all(self, id: CardId)
        requires
            self.conserved(),
            self.pool().contains(id),
        ensures
            forall|q: int|
                0 <= q < self.hands().len() ==> !hand_has_concrete(#[trigger] self.hand(q), id),
    {
        assert forall|q: int|
            0 <= q < self.hands().len() implies !hand_has_concrete(#[trigger] self.hand(q), id) by {
            if hand_has_concrete(self.hand(q), id) {
                self.lemma_concrete_excludes_pool(q, id);
            }
        }
    }

    /// Assign a uniformly random pool identity, privately, to every unknown
    /// slot of `player`'s hand, so that the player knows their own cards.
    pub fn make_cards_known(&mut self, player_idx: u8, rng: &mut StdRng)
        requires
            (player_idx as int) < old(self).hands().len(),
            old(self).conserved(),
            old(self).counts_ok(),
            old(self).cards_ok(),
        ensures
            final(self).conserved(),
            final(self).counts_ok(),
            final(self).cards_ok(),
            hand_unknowns(final(self).hand(player_idx as int)) == 0,
            final(self).hand(player_idx as int).len() == old(self).hand(player_idx as int).len(),
            final(self).hands().len() == old(self).hands().len(),
            forall|q: int|
                0 <= q < old(self).hands().len() && q != player_idx as int ==> final(self).hands()[q]
                    == old(self).hands()[q],
            final(self).nonpub() == old(self).nonpub(),
            forall|x: CardId| final(self).pool().contains(x) ==> old(self).pool().contains(x),
            final(self).deck == old(self).deck,
            final(self).card_collection.trump_suit == old(self).card_collection.trump_suit,
            GameState::same_turn_fields(*old(self), *final(self)),
            GameState::same_table_fields(*old(self), *final(self)),
    {
        let p = player_idx as usize;
        let n = self.card_collection.hands[p].len();
        let mut j: usize = 0;
        while j < n
            invariant
                (player_idx as int) < self.hands().len(),
                n == self.hand(player_idx as int).len(),
                j <= n,
                self.conserved(),
                self.counts_ok(),
                self.cards_ok(),
                forall|j2: int|
                    0 <= j2 < j as int ==> !slot_unknown(
                        #[trigger] self.hand(player_idx as int)[j2]),
                self.hands().len() == old(self).hands().len(),
                forall|q: int|
                    0 <= q < old(self).hands().len() && q != player_idx as int ==> self.hands()[q]
                        == old(self).hands()[q],
                self.nonpub() == old(self).nonpub(),
                forall|x: CardId| self.pool().contains(x) ==> old(self).pool().contains(x),
                self.deck == old(self).deck,
                self.card_collection.trump_suit == old(self).card_collection.trump_suit,
                GameState::same_turn_fields(*old(self), *self),
                GameState::same_table_fields(*old(self), *self),
            decreases n - j,
        {
            let s = self.card_collection.hands[p][j];
            if s.0 == -1 {
                proof {
                    assert(slot_unknown(self.hand(player_idx as int)[j as int]));
                    lemma_hand_unknowns_pos(self.hand(player_idx as int));
                    lemma_hands_unknowns_component(self.hands(), player_idx as int);
                    assert(self.pool().len() >= 1);
                }
                let idx = rng_below(rng, self.card_collection.unknown.len());
                let ghost pre = *self;
                self.assign_hand_slot(player_idx, j, idx, false);
                proof {
                    assert(forall|j2: int|
                        0 <= j2 < j as int ==> self.hand(player_idx as int)[j2] == pre.hand(
                            player_idx as int,
                        )[j2]);
                    assert(!slot_unknown(self.hand(player_idx as int)[j as int]));
                }
            }
            j = j + 1;
        }
        proof {
            lemma_hand_unknowns_pos(self.hand(player_idx as int));
        }
    }

    /// Reveal, for the engine's view, that the next unknown slot of
    /// `player`'s hand holds `id` (told by an outside oracle). Refused, with
    /// the state unchanged, when `id` is not in the pool or no slot of the
    /// hand is unknown.
    pub fn reveal_slot(&mut self, player_idx: u8, id: CardId) -> (ok: bool)
        requires
            (player_idx as int) < old(self).hands().len(),
            old(self).conserved(),
            old(self).counts_ok(),
            old(self).cards_ok(),
        ensures
            final(self).conserved(),
            final(self).counts_ok(),
            final(self).cards_ok(),
            ok == (old(self).pool().contains(id) && hand_unknowns(
                old(self).hand(player_idx as int),
            ) > 0),
            !ok ==> *final(self) == *old(self),
            ok ==> ({
                &&& hand_mset(final(self).hand(player_idx as int)) =~= hand_mset(
                    old(self).hand(player_idx as int),
                ).insert(id)
                &&& hand_unknowns(final(self).hand(player_idx as int)) + 1 == hand_unknowns(
                    old(self).hand(player_idx as int),
                )
                &&& !final(self).pool().contains(id)
            }),
            final(self).nonpub() == old(self).nonpub(),
            final(self).deck == old(self).deck,
            final(self).hands().len() == old(self).hands().len(),
            forall|q: int|
                0 <= q < old(self).hands().len() && q != player_idx as int ==> final(self).hands()[q]
                    == old(self).hands()[q],
            final(self).card_collection.trump_suit == old(self).card_collection.trump_suit,
            GameState::same_turn_fields(*old(self), *final(self)),
            GameState::same_table_fields(*old(self), *final(self)),
    {
        let p = player_idx as usize;
        let n = self.card_collection.hands[p].len();
        // find the identity in the pool
        let m = self.card_collection.unknown.len();
        let mut idx: usize = m;
        let mut i: usize = 0;
        while i < m
            invariant
                m == self.pool().len(),
                i <= m,
                idx == m || (idx < m && self.pool()[idx as int] == id),
                idx == m ==> forall|i2: int| 0 <= i2 < i as int ==> self.pool()[i2] != id,
            decreases m - i,
        {
            if idx == m {
                let c = self.card_collection.unknown[i];
                if c.0 == id.0 && c.1 == id.1 {
                    idx = i;
                }
            }
            i = i + 1;
        }
        if idx == m {
            proof {
                assert(!old(self).pool().contains(id)) by {
                    if old(self).pool().contains(id) {
                        let w = choose|w: int|
                            0 <= w < old(self).pool().len() && old(self).pool()[w] == id;
                    }
                }
            }
            return false;
        }
        // find an unknown slot
        let mut at: usize = n;
        let mut j: usize = 0;
        while j < n
            invariant
                n == self.hand(player_idx as int).len(),
                j <= n,
                at == n || (at < n && slot_unknown(self.hand(player_idx as int)[at as int])),
                at == n ==> forall|j2: int|
                    0 <= j2 < j as int ==> !slot_unknown(
                        #[trigger] self.hand(player_idx as int)[j2]),
            decreases n - j,
        {
            if at == n && self.card_collection.hands[p][j].0 == -1 {
                at = j;
            }
            j = j + 1;
        }
        if at == n {
            proof {
                lemma_hand_unknowns_pos(old(self).hand(player_idx as int));
            }
            return false;
        }
        proof {
            assert(old(self).pool().contains(id)) by {
                assert(old(self).pool()[idx as int] == id);
            }
            lemma_hand_unknowns_pos(old(self).hand(player_idx as int));
        }
        let ghost oldh = self.hand(player_idx as int);
        self.assign_hand_slot(player_idx, at, idx, false);
        proof {
            lemma_hand_mset_update(oldh, at as int, (id.0, id.1, false));
            assert(hand_mset(self.hand(player_idx as int)) =~= hand_mset(oldh).insert(id)) by {
                assert(slot_mset(oldh[at as int]) =~= Multiset::<CardId>::empty());
                assert(slot_mset((id.0, id.1, false)) =~= Multiset::empty().insert(id));
                assert forall|x: CardId|
                    hand_mset(self.hand(player_idx as int)).count(x) == hand_mset(oldh).insert(
                        id).count(x) by {
                    assert(hand_mset(oldh.update(at as int, (id.0, id.1, false))).add(
                        slot_mset(oldh[at as int])).count(x) == hand_mset(oldh).add(
                        slot_mset((id.0, id.1, false))).count(x));
                    assert(self.hand(player_idx as int) == oldh.update(
                        at as int,
                        (id.0, id.1, false),
                    ));
                }
            }
            assert(!self.pool().contains(id));
        }
        true
    }

    /// Give the face-down deck entry at `i` the pool identity at `idx` and
    /// reveal it: used when a position is determinized for search.
    fn assign_deck_entry(&mut self, i: usize, idx: usize)
        requires
            (i as int) < old(self).deck@.len(),
            old(self).deck@[i as int].is_unknown,
            (idx as int) < old(self).pool().len(),
            old(self).conserved(),
            old(self).counts_ok(),
            old(self).cards_ok(),
            old(self).trump_ok(),
        ensures
            final(self).conserved(),
            final(self).counts_ok(),
            final(self).cards_ok(),
            final(self).deck@.len() == old(self).deck@.len(),
            !final(self).deck@[i as int].is_unknown,
            forall|i2: int|
                0 <= i2 < old(self).deck@.len() && i2 != i as int ==> final(self).deck@[i2] == old(
                    self,
                ).deck@[i2],
            final(self).card_collection.hands == old(self).card_collection.hands,
            final(self).pool().len() == old(self).pool().len() - 1,
            forall|x: CardId| final(self).pool().contains(x) ==> old(self).pool().contains(x),
            forall|x: CardId| final(self).nonpub().contains(x) ==> old(self).nonpub().contains(x),
            final(self).card_collection.trump_suit == old(self).card_collection.trump_suit,
            GameState::same_turn_fields(*old(self), *final(self)),
            GameState::same_table_fields(*old(self), *final(self)),
    {
        let ghost olddeck = self.deck@;
        let ghost oldpool = self.pool();
        let ghost oldnp = self.nonpub();
        let id = self.card_collection.unknown[idx];
        proof {
            self.lemma_pool_distinct();
            assert(oldpool.contains(id));
            self.lemma_concrete_excludes_pool_all(id);
        }
        let found_pool = remove_id(&mut self.card_collection.unknown, id);
        let found_np = remove_id(&mut self.card_collection.non_public, id);
        let entry = Card {
            suit: id.0,
            value: id.1,
            trump_suit: self.card_collection.trump_suit,
            is_public: true,
            is_private: false,
            is_unknown: false,
        };
        self.deck[i] = entry;
        proof {
            lemma_deck_mset_update(olddeck, i as int, entry);
            assert(card_mset(olddeck[i as int]) =~= Multiset::<CardId>::empty());
            assert(card_mset(entry) =~= Multiset::empty().insert(id));
            assert forall|x: CardId|
                self.placed_mset().count(x) == old(self).placed_mset().count(x) by {
                assert(deck_mset(self.deck@).add(card_mset(olddeck[i as int])).count(x)
                    == deck_mset(olddeck).add(card_mset(entry)).count(x));
                assert(ids_mset(self.pool()).insert(id).count(x) == ids_mset(oldpool).count(x));
            }
            assert(self.placed_mset() =~= old(self).placed_mset());
            assert(self.conserved());
            assert(self.counts_ok()) by {
                assert(deck_unknowns(self.deck@) + 1 == deck_unknowns(olddeck));
            }
            assert(valid_id(id));
            assert(self.cards_ok()) by {
                assert forall|i2: int|
                    0 <= i2 < self.deck@.len() implies self.deck_entry_ok(
                    #[trigger] self.deck@[i2]) by {
                    if i2 == i as int {
                        assert(self.deck@[i2] == entry);
                        assert(!self.nonpub().contains(id));
                    } else {
                        assert(self.deck@[i2] == olddeck[i2]);
                        assert(old(self).deck_entry_ok(olddeck[i2]));
                    }
                }
                assert forall|i2: int|
                    0 <= i2 < self.nonpub().len() implies valid_id(#[trigger] self.nonpub()[i2]) by {
                    assert(self.nonpub().contains(self.nonpub()[i2]));
                    assert(oldnp.contains(self.nonpub()[i2]));
                    let w = choose|w: int| 0 <= w < oldnp.len() && oldnp[w] == self.nonpub()[i2];
                }
                assert forall|q: int, j2: int|
                    0 <= q < self.hands().len() && 0 <= j2 < self.hand(q).len() implies self.slot_ok(
                    #[trigger] self.hand(q)[j2],
                ) by {
                    assert(self.hand(q) == old(self).hand(q));
                    assert(old(self).slot_ok(old(self).hand(q)[j2]));
                    let s2 = self.hand(q)[j2];
                    if !slot_unknown(s2) && slot_id(s2) == id {
                        assert(hand_has_concrete(old(self).hand(q), id)) by {
                            assert(!slot_unknown(old(self).hand(q)[j2]) && slot_id(
                                old(self).hand(q)[j2]) == id);
                        }
                        old(self).lemma_concrete_excludes_pool(q, id);
                    }
                }
                assert forall|i2: int|
                    0 <= i2 < self.pool().len() implies self.nonpub().contains(
                    #[trigger] self.pool()[i2]) by {
                    assert(self.pool().contains(self.pool()[i2]));
                    assert(oldpool.contains(self.pool()[i2]) && self.pool()[i2] != id);
                    assert(oldnp.contains(self.pool()[i2]));
                }
            }
        }
    }

    /// Determinize the position: assign the whole pool uniformly at random,
    /// without replacement, to the face-down deck entries and then to the
    /// unknown hand slots, revealing everything. Afterwards no hidden
    /// information is left.
    pub fn determinize(&mut self, rng: &mut StdRng)
        requires
            old(self).wf(),
        ensures
            final(self).wf(),
            final(self).pool().len() == 0,
            forall|i: int| 0 <= i < final(self).deck@.len() ==> !(#[trigger] final(self).deck@[i]).is_unknown,
            forall|p: int|
                0 <= p < final(self).hands().len() ==> hand_unknowns(#[trigger] final(self).hand(p))
                    == 0,
            final(self).deck@.len() == old(self).deck@.len(),
            final(self).hands().len() == old(self).hands().len(),
            forall|p: int|
                0 <= p < old(self).hands().len() ==> final(self).hand(p).len() == old(self).hand(
                    p,
                ).len(),
            GameState::same_turn_fields(*old(self), *final(self)),
            GameState::same_table_fields(*old(self), *final(self)),
            !final(self).is_end_state ==> final(self).wf(),
    {
        let n = self.deck.len();
        let mut i: usize = 0;
        while i < n
            invariant
                n == self.deck@.len(),
                i <= n,
                self.conserved(),
                self.counts_ok(),
                self.cards_ok(),
                self.trump_ok(),
                forall|i2: int| 0 <= i2 < i as int ==> !(#[trigger] self.deck@[i2]).is_unknown,
                self.deck@.len() > 0 ==> self.deck@[0] == old(self).deck@[0],
                self.card_collection.hands == old(self).card_collection.hands,
                self.card_collection.trump_suit == old(self).card_collection.trump_suit,
                self.reflected_trumps == old(self).reflected_trumps,
                GameState::same_turn_fields(*old(self), *self),
                GameState::same_table_fields(*old(self), *self),
            decreases n - i,
        {
            if self.deck[i].is_unknown {
                proof {
                    lemma_deck_unknowns_pos(self.deck@, i as int);
                    assert(self.pool().len() >= 1);
                    if i == 0 {
                        assert(old(self).bottom_ok());
                        assert(self.deck@[0] == old(self).deck@[0]);
                    }
                    assert(i as int != 0 || self.deck@.len() == 0);
                }
                let idx = rng_below(rng, self.card_collection.unknown.len());
                let ghost pre = *self;
                self.assign_deck_entry(i, idx);
                proof {
                    assert(forall|i2: int|
                        0 <= i2 < i as int ==> self.deck@[i2] == pre.deck@[i2]);
                    assert(self.deck@[0] == pre.deck@[0]);
                }
            }
            i = i + 1;
        }
        let nump = self.num_players;
        let mut p: u8 = 0;
        while p < nump
            invariant
                p <= nump,
                nump == self.num_players,
                self.hands().len() == old(self).hands().len(),
                self.hands().len() == nump as int,
                self.conserved(),
                self.counts_ok(),
                self.cards_ok(),
                self.trump_ok(),
                n == self.deck@.len(),
                forall|i2: int| 0 <= i2 < n as int ==> !(#[trigger] self.deck@[i2]).is_unknown,
                self.deck@.len() > 0 ==> self.deck@[0] == old(self).deck@[0],
                forall|q: int|
                    0 <= q < p as int ==> hand_unknowns(#[trigger] self.hand(q)) == 0,
                forall|q: int|
                    0 <= q < nump as int ==> self.hand(q).len() == old(self).hand(q).len(),
                self.card_collection.trump_suit == old(self).card_collection.trump_suit,
                self.reflected_trumps == old(self).reflected_trumps,
                GameState::same_turn_fields(*old(self), *self),
                GameState::same_table_fields(*old(self), *self),
            decreases nump - p,
        {
            let hn = self.card_collection.hands[p as usize].len();
            let mut j: usize = 0;
            while j < hn
                invariant
                    (p as int) < self.hands().len(),
                    hn == self.hand(p as int).len(),
                    j <= hn,
                    nump == self.num_players,
                    self.hands().len() == old(self).hands().len(),
                    self.hands().len() == nump as int,
                    self.conserved(),
                    self.counts_ok(),
                    self.cards_ok(),
                    self.trump_ok(),
                    n == self.deck@.len(),
                    forall|i2: int| 0 <= i2 < n as int ==> !(#[trigger] self.deck@[i2]).is_unknown,
                    self.deck@.len() > 0 ==> self.deck@[0] == old(self).deck@[0],
                    forall|j2: int|
                        0 <= j2 < j as int ==> !slot_unknown(#[trigger] self.hand(p as int)[j2]),
                    forall|q: int|
                        0 <= q < p as int ==> hand_unknowns(#[trigger] self.hand(q)) == 0,
                    forall|q: int|
                        0 <= q < nump as int ==> self.hand(q).len() == old(self).hand(q).len(),
                    self.card_collection.trump_suit == old(self).card_collection.trump_suit,
                    self.reflected_trumps == old(self).reflected_trumps,
                    GameState::same_turn_fields(*old(self), *self),
                    GameState::same_table_fields(*old(self), *self),
                decreases hn - j,
            {
                let s = self.card_collection.hands[p as usize][j];
                if s.0 == -1 {
                    proof {
                        assert(slot_unknown(self.hand(p as int)[j as int]));
                        lemma_hand_unknowns_pos(self.hand(p as int));
                        lemma_hands_unknowns_component(self.hands(), p as int);
                        assert(self.pool().len() >= 1);
                    }
                    let idx = rng_below(rng, self.card_collection.unknown.len());
                    let ghost pre = *self;
                    self.assign_hand_slot(p, j, idx, true);
                    proof {
                        assert(forall|j2: int|
                            0 <= j2 < j as int ==> self.hand(p as int)[j2] == pre.hand(
                                p as int,
                            )[j2]);
                        assert(!slot_unknown(self.hand(p as int)[j as int]));
                        assert forall|q: int|
                            0 <= q < p as int implies hand_unknowns(
                            #[trigger] self.hand(q)) == 0 by {
                            assert(self.hand(q) == pre.hand(q));
                        }
                    }
                }
                j = j + 1;
            }
            proof {
                lemma_hand_unknowns_pos(self.hand(p as int));
            }
            p = p + 1;
        }
        proof {
            lemma_deck_unknowns_zero(self.deck@);
            assert forall|q: int|
                0 <= q < self.hands().len() implies hand_unknowns((#[trigger] self.hands()[q])@)
                    == 0 by {
                assert(hand_unknowns(self.hand(q)) == 0);
            }
            lemma_hands_unknowns_zero(self.hands());
            assert(self.pool().len() == 0);
            assert(self.bottom_ok()) by {
                if self.deck@.len() > 0 {
                    assert(self.deck@[0] == old(self).deck@[0]);
                }
            }
            assert(self.reflected_ok()) by {
                assert(self.reflected_trumps == old(self).reflected_trumps);
            }
            assert(self.phase_ok()) by {
                if !self.is_end_state && (self.current_action == ActionKind::Defend
                    || self.current_action == ActionKind::ThrowCards) {
                    assert(self.hand(self.defender as int).len() == old(self).hand(
                        old(self).defender as int).len());
                }
            }
            assert(self.wf());
        }
    }

    /// Mask the state down to what `viewer` can see: every other player's
    /// concrete private slot goes back to an unknown slot and its identity
    /// returns to the pool. What is public stays as it is. Used on a copy of
    /// the true state before determinizing.
    pub fn mask_view(&mut self, viewer: u8)
        requires
            old(self).wf(),
            (viewer as int) < old(self).hands().len(),
        ensures
            final(self).wf(),
            final(self).hand(viewer as int) == old(self).hand(viewer as int),
            final(self).hands().len() == old(self).hands().len(),
            forall|p: int|
                0 <= p < old(self).hands().len() ==> final(self).hand(p).len() == old(self).hand(
                    p,
                ).len(),
            forall|p: int, j: int|
                0 <= p < old(self).hands().len() && p != viewer as int && 0 <= j < old(self).hand(
                    p,
                ).len() ==> final(self).hand(p)[j] == (
                if !slot_unknown(old(self).hand(p)[j]) && !old(self).hand(p)[j].2 {
                    (-1i8, -1i8, false)
                } else {
                    old(self).hand(p)[j]
                }),
            final(self).nonpub() == old(self).nonpub(),
            final(self).deck == old(self).deck,
            GameState::same_turn_fields(*old(self), *final(self)),
            GameState::same_table_fields(*old(self), *final(self)),
    {
        let nump = self.num_players;
        let ghost oldhands = self.hands();
        let mut p: u8 = 0;
        while p < nump
            invariant
                p <= nump,
                nump == self.num_players,
                self.hands().len() == old(self).hands().len(),
                self.hands().len() == nump as int,
                (viewer as int) < self.hands().len(),
                self.conserved(),
                self.counts_ok(),
                self.cards_ok(),
                self.trump_ok(),
                self.bottom_ok(),
                self.hand(viewer as int) == old(self).hand(viewer as int),
                forall|q: int|
                    0 <= q < old(self).hands().len() ==> self.hand(q).len() == old(self).hand(
                        q,
                    ).len(),
                forall|q: int|
                    p as int <= q < old(self).hands().len() ==> self.hands()[q] == old(
                        self,
                    ).hands()[q],
                forall|q: int, j: int|
                    0 <= q < p as int && q != viewer as int && 0 <= j < old(self).hand(q).len()
                        ==> self.hand(q)[j] == (
                    if !slot_unknown(old(self).hand(q)[j]) && !old(self).hand(q)[j].2 {
                        (-1i8, -1i8, false)
                    } else {
                        old(self).hand(q)[j]
                    }),
                self.nonpub() == old(self).nonpub(),
                self.deck == old(self).deck,
                self.card_collection.trump_suit == old(self).card_collection.trump_suit,
                self.reflected_trumps == old(self).reflected_trumps,
                GameState::same_turn_fields(*old(self), *self),
                GameState::same_table_fields(*old(self), *self),
            decreases nump - p,
        {
            if p != viewer {
                let hn = self.card_collection.hands[p as usize].len();
                let ghost prehand = self.hand(p as int);
                let mut j: usize = 0;
                while j < hn
                    invariant
                        (p as int) < self.hands().len(),
                        p != viewer,
                        (viewer as int) < self.hands().len(),
                        hn == self.hand(p as int).len(),
                        j <= hn,
                        nump == self.num_players,
                        self.hands().len() == old(self).hands().len(),
                        self.hands().len() == nump as int,
                        self.conserved(),
                        self.counts_ok(),
                        self.cards_ok(),
                        self.trump_ok(),
                        self.bottom_ok(),
                        prehand == old(self).hand(p as int),
                        self.hand(viewer as int) == old(self).hand(viewer as int),
                        forall|q: int|
                            0 <= q < old(self).hands().len() ==> self.hand(q).len() == old(
                                self,
                            ).hand(q).len(),
                        forall|q: int|
                            (p as int) < q && q < old(self).hands().len() ==> self.hands()[q]
                                == old(self).hands()[q],
                        forall|q: int, j2: int|
                            0 <= q < p as int && q != viewer as int && 0 <= j2 < old(self).hand(
                                q,
                            ).len() ==> self.hand(q)[j2] == (
                            if !slot_unknown(old(self).hand(q)[j2]) && !old(self).hand(q)[j2].2 {
                                (-1i8, -1i8, false)
                            } else {
                                old(self).hand(q)[j2]
                            }),
                        forall|j2: int|
                            0 <= j2 < j as int ==> self.hand(p as int)[j2] == (
                            if !slot_unknown(prehand[j2]) && !prehand[j2].2 {
                                (-1i8, -1i8, false)
                            } else {
                                prehand[j2]
                            }),
                        forall|j2: int|
                            j as int <= j2 < hn as int ==> self.hand(p as int)[j2] == prehand[j2],
                        self.nonpub() == old(self).nonpub(),
                        self.deck == old(self).deck,
                        self.card_collection.trump_suit == old(self).card_collection.trump_suit,
                        self.reflected_trumps == old(self).reflected_trumps,
                        GameState::same_turn_fields(*old(self), *self),
                        GameState::same_table_fields(*old(self), *self),
                    decreases hn - j,
                {
                    let s = self.card_collection.hands[p as usize][j];
                    if s.0 != -1 && !s.2 {
                        let ghost pre = *self;
                        self.hide_hand_slot(p, j);
                        proof {
                            assert(forall|q: int|
                                0 <= q < self.hands().len() && q != p as int ==> self.hands()[q]
                                    == pre.hands()[q]);
                            assert(forall|j2: int|
                                0 <= j2 < hn as int && j2 != j as int ==> self.hand(p as int)[j2]
                                    == pre.hand(p as int)[j2]);
                        }
                    }
                    j = j + 1;
                }
            }
            p = p + 1;
        }
        proof {
            assert(self.reflected_ok());
            assert(self.phase_ok()) by {
                if !self.is_end_state && (self.current_action == ActionKind::Defend
                    || self.current_action == ActionKind::ThrowCards) {
                    assert(self.hand(self.defender as int).len() == old(self).hand(
                        old(self).defender as int).len());
                }
            }
            assert(self.wf());
        }
    }

    /// Forget the identity of one concrete private slot: the slot becomes
    /// unknown again and the identity returns to the pool.
    fn hide_hand_slot(&mut self, player_idx: u8, j: usize)
        requires
            (player_idx as int) < old(self).hands().len(),
            (j as int) < old(self).hand(player_idx as int).len(),
            !slot_unknown(old(self).hand(player_idx as int)[j as int]),
            !old(self).hand(player_idx as int)[j as int].2,
            old(self).conserved(),
            old(self).counts_ok(),
            old(self).cards_ok(),
        ensures
            final(self).conserved(),
            final(self).counts_ok(),
            final(self).cards_ok(),
            final(self).hands().len() == old(self).hands().len(),
            forall|q: int|
                0 <= q < old(self).hands().len() && q != player_idx as int ==> final(self).hands()[q]
                    == old(self).hands()[q],
            final(self).hand(player_idx as int) == old(self).hand(player_idx as int).update(
                j as int,
                (-1i8, -1i8, false),
            ),
            final(self).nonpub() == old(self).nonpub(),
            final(self).deck == old(self).deck,
            final(self).card_collection.trump_suit == old(self).card_collection.trump_suit,
            GameState::same_turn_fields(*old(self), *final(self)),
            GameState::same_table_fields(*old(self), *final(self)),
    {
        let p = player_idx as usize;
        let ghost oldh = self.hand(player_idx as int);
        let ghost prehands = self.hands();
        let ghost oldpool = self.pool();
        let s = self.card_collection.hands[p][j];
        let id: CardId = (s.0, s.1);
        let ghost sentinel: HandSlot = (-1i8, -1i8, false);
        self.card_collection.unknown.push(id);
        let hand = &mut self.card_collection.hands[p];
        hand[j] = (-1, -1, false);
        proof {
            let newh = self.hand(player_idx as int);
            assert(newh == oldh.update(j as int, sentinel));
            assert(self.hands() == prehands.update(player_idx as int, self.hands()[
                player_idx as int]));
            lemma_hand_mset_update(oldh, j as int, sentinel);
            lemma_hands_mset_update(prehands, player_idx as int, self.hands()[player_idx as int]);
            lemma_ids_mset_push(oldpool, id);
            assert(slot_mset(oldh[j as int]) =~= Multiset::empty().insert(id));
            assert(slot_mset(sentinel) =~= Multiset::<CardId>::empty());
            assert forall|x: CardId|
                self.placed_mset().count(x) == old(self).placed_mset().count(x) by {
                assert(hand_mset(newh).add(slot_mset(oldh[j as int])).count(x) == hand_mset(
                    oldh).add(slot_mset(sentinel)).count(x));
                assert(hands_mset(self.hands()).add(hand_mset(oldh)).count(x) == hands_mset(
                    prehands).add(hand_mset(newh)).count(x));
                assert(ids_mset(self.pool()).count(x) == ids_mset(oldpool).insert(id).count(x));
            }
            assert(self.placed_mset() =~= old(self).placed_mset());
            assert(self.conserved());
            assert(self.counts_ok()) by {
                assert(hand_unknowns(newh) == hand_unknowns(oldh) + 1);
                assert(hands_unknowns(self.hands()) + hand_unknowns(oldh) == hands_unknowns(
                    prehands) + hand_unknowns(newh));
                assert(self.pool().len() == oldpool.len() + 1);
            }
            assert(self.cards_ok()) by {
                assert forall|i: int|
                    0 <= i < self.deck@.len() implies self.deck_entry_ok(
                    #[trigger] self.deck@[i]) by {
                    assert(old(self).deck_entry_ok(old(self).deck@[i]));
                }
                assert forall|q: int, j2: int|
                    0 <= q < self.hands().len() && 0 <= j2 < self.hand(q).len() implies self.slot_ok(
                    #[trigger] self.hand(q)[j2],
                ) by {
                    if q == player_idx as int && j2 == j as int {
                        assert(self.hand(q)[j2] == sentinel);
                    } else if q == player_idx as int {
                        assert(self.hand(q)[j2] == oldh[j2]);
                        assert(old(self).slot_ok(oldh[j2]));
                    } else {
                        assert(self.hand(q) == old(self).hand(q));
                        assert(old(self).slot_ok(old(self).hand(q)[j2]));
                    }
                }
                assert forall|i: int|
                    0 <= i < self.pool().len() implies self.nonpub().contains(
                    #[trigger] self.pool()[i]) by {
                    if i < oldpool.len() {
                        assert(self.pool()[i] == oldpool[i]);
                        assert(old(self).nonpub().contains(oldpool[i]));
                    } else {
                        assert(self.pool()[i] == id);
                        // the slot was private, so its identity was still
                        // non-public
                        assert(old(self).slot_ok(oldh[j as int]));
                        assert(old(self).nonpub().contains(id));
                    }
                }
            }
        }
    }
}

} // verus!
