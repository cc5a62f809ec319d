//! The legal-move generator: which actions the player to move may announce,
//! honoring hidden-card feasibility for players whose own hand still has
//! unknown-identity slots.

use vstd::prelude::*;
use vstd::multiset::Multiset;

use crate::cards::{Action, ActionKind, CardId, HandSlot, beats, spec_beats, id_eq, slot_unknown,
    slot_id, valid_id};
use crate::collection::{copy_vec, contains_id, remove_id, distinct_ids, hand_unknowns, ids_mset,
    lemma_ids_mset_contains, lemma_distinct_counts, lemma_ids_mset_swap_remove,
    lemma_ids_mset_push, lemma_push_contains, lemma_distinct_valid_bound};
use crate::game::GameState;

verus! {

/// Strict (suit, value) order on identities.
pub open spec fn id_lt(a: CardId, b: CardId) -> bool {
    a.0 < b.0 || (a.0 == b.0 && a.1 < b.1)
}

/// Reflexive (suit, value) order on identities.
pub open spec fn id_le(a: CardId, b: CardId) -> bool {
    a.0 < b.0 || (a.0 == b.0 && a.1 <= b.1)
}

/// Runtime check of `id_lt`.
pub fn id_less(a: CardId, b: CardId) -> (r: bool)
    ensures
        r == id_lt(a, b),
{
    a.0 < b.0 || (a.0 == b.0 && a.1 < b.1)
}

/// A list with the same identity twice counts that identity at least twice.
pub proof fn lemma_dup_count(s: Seq<CardId>, i: int, j: int)
    requires
        0 <= i < j < s.len(),
        s[i] == s[j],
    ensures
        ids_mset(s).count(s[i]) >= 2,
    decreases s.len(),
{
    if j == s.len() - 1 {
        assert(s.drop_last()[i] == s[i]);
        assert(s.drop_last().contains(s[i]));
        lemma_ids_mset_contains(s.drop_last(), s[i]);
        assert(ids_mset(s) == ids_mset(s.drop_last()).insert(s.last()));
    } else {
        lemma_dup_count(s.drop_last(), i, j);
        assert(s.drop_last()[i] == s[i]);
        assert(ids_mset(s) == ids_mset(s.drop_last()).insert(s.last()));
    }
}

/// Sort identities into ascending (suit, value) order: the canonical order
/// of a throw, so that equivalent throws compare equal.
pub fn sort_ids(v: &mut Vec<CardId>)
    ensures
        final(v)@.len() == old(v)@.len(),
        ids_mset(final(v)@) =~= ids_mset(old(v)@),
        forall|id: CardId| final(v)@.contains(id) <==> old(v)@.contains(id),
        forall|i: int, j: int|
            0 <= i < j < final(v)@.len() ==> id_le(final(v)@[i], final(v)@[j]),
        distinct_ids(old(v)@) ==> distinct_ids(final(v)@) && ids_strictly_sorted(final(v)@),
{
    let mut out: Vec<CardId> = Vec::new();
    while v.len() > 0
        invariant
            ids_mset(out@).add(ids_mset(v@)) =~= ids_mset(old(v)@),
            out@.len() + v@.len() == old(v)@.len(),
            forall|i: int, j: int| 0 <= i < j < out@.len() ==> id_le(out@[i], out@[j]),
            forall|i: int, j: int|
                0 <= i < out@.len() && 0 <= j < v@.len() ==> id_le(out@[i], v@[j]),
        decreases v.len(),
    {
        let mut mi: usize = 0;
        let mut i: usize = 1;
        while i < v.len()
            invariant
                mi < v@.len(),
                i <= v@.len(),
                forall|j: int| 0 <= j < i as int ==> id_le(v@[mi as int], v@[j]),
            decreases v.len() - i,
        {
            if id_less(v[i], v[mi]) {
                mi = i;
            }
            i = i + 1;
        }
        let ghost prev = v@;
        let ghost preout = out@;
        let m = v.swap_remove(mi);
        out.push(m);
        proof {
            lemma_ids_mset_swap_remove(prev, mi as int);
            lemma_ids_mset_push(preout, m);
            assert(ids_mset(out@).add(ids_mset(v@)) =~= ids_mset(old(v)@)) by {
                assert(ids_mset(v@).insert(m) =~= ids_mset(prev));
                assert(ids_mset(out@) =~= ids_mset(preout).insert(m));
            }
            assert forall|j: int| 0 <= j < v@.len() implies id_le(m, v@[j]) by {
                if j == mi as int {
                    assert(v@[j] == prev[prev.len() - 1]);
                } else {
                    assert(v@[j] == prev[j]);
                }
            }
            assert(forall|i2: int| 0 <= i2 < preout.len() ==> out@[i2] == preout[i2]);
            assert(out@[out@.len() - 1] == m);
        }
    }
    proof {
        assert(ids_mset(v@) =~= Multiset::empty());
        assert(ids_mset(out@) =~= ids_mset(old(v)@));
    }
    let sorted = out;
    *v = sorted;
    proof {
        assert forall|id: CardId| v@.contains(id) <==> old(v)@.contains(id) by {
            lemma_ids_mset_contains(v@, id);
            lemma_ids_mset_contains(old(v)@, id);
        }
        if distinct_ids(old(v)@) {
            assert forall|i: int, j: int| 0 <= i < j < v@.len() implies v@[i] != v@[j] by {
                if v@[i] == v@[j] {
                    lemma_dup_count(v@, i, j);
                    lemma_distinct_counts(old(v)@, v@[i]);
                }
            }
            assert forall|i: int, j: int|
                0 <= i < j < v@.len() implies (v@[i].0 < v@[j].0 || (v@[i].0 == v@[j].0
                && v@[i].1 < v@[j].1)) by {
                assert(id_le(v@[i], v@[j]));
                assert(v@[i] != v@[j]);
            }
        }
    }
}

/// The action list holds an action of this kind with this card.
pub open spec fn has_act(acts: Seq<Action>, kind: ActionKind, id: CardId) -> bool {
    exists|i: int| 0 <= i < acts.len() && (#[trigger] acts[i]).name == kind && acts[i].card == id
}

/// Extending an action list keeps every action it already holds.
pub proof fn lemma_has_act_prefix(pre: Seq<Action>, post: Seq<Action>)
    requires
        pre.len() <= post.len(),
        forall|i: int| 0 <= i < pre.len() ==> post[i] == pre[i],
    ensures
        forall|kind: ActionKind, id: CardId|
            has_act(pre, kind, id) ==> #[trigger] has_act(post, kind, id),
{
    assert forall|kind: ActionKind, id: CardId|
        has_act(pre, kind, id) implies #[trigger] has_act(post, kind, id) by {
        let i = choose|i: int|
            0 <= i < pre.len() && (#[trigger] pre[i]).name == kind && pre[i].card == id;
        assert(post[i].name == kind && post[i].card == id);
    }
}

/// The action list holds a throw of exactly these cards.
pub open spec fn has_throw(acts: Seq<Action>, t: Seq<CardId>) -> bool {
    exists|i: int|
        0 <= i < acts.len() && (#[trigger] acts[i]).name == ActionKind::ThrowCards
            && acts[i].throw@ == t
}

/// Extending an action list keeps every throw it already holds.
pub proof fn lemma_has_throw_prefix(pre: Seq<Action>, post: Seq<Action>)
    requires
        pre.len() <= post.len(),
        forall|i: int| 0 <= i < pre.len() ==> post[i] == pre[i],
    ensures
        forall|t: Seq<CardId>| has_throw(pre, t) ==> #[trigger] has_throw(post, t),
{
    assert forall|t: Seq<CardId>| has_throw(pre, t) implies #[trigger] has_throw(post, t) by {
        let i = choose|i: int|
            0 <= i < pre.len() && (#[trigger] pre[i]).name == ActionKind::ThrowCards
                && pre[i].throw@ == t;
        assert(post[i].name == ActionKind::ThrowCards && post[i].throw@ == t);
    }
}

/// Some concrete slot of the hand holds `id`.
pub open spec fn hand_has_concrete(h: Seq<HandSlot>, id: CardId) -> bool {
    exists|j: int| 0 <= j < h.len() && !slot_unknown(#[trigger] h[j]) && slot_id(h[j]) == id
}

/// How many cards of a throw have no concrete slot in the hand and must be
/// covered by unknown slots.
pub open spec fn missing_count(h: Seq<HandSlot>, throw: Seq<CardId>) -> nat
    decreases throw.len(),
{
    if throw.len() == 0 {
        0
    } else {
        missing_count(h, throw.drop_last()) + (if hand_has_concrete(h, throw.last()) {
            0nat
        } else {
            1nat
        })
    }
}

/// Strictly ascending in (suit, value) order: the canonical form of a throw.
pub open spec fn ids_strictly_sorted(s: Seq<CardId>) -> bool {
    forall|i: int, j: int|
        0 <= i < j < s.len() ==> (s[i].0 < s[j].0 || (s[i].0 == s[j].0 && s[i].1 < s[j].1))
}

/// A positive unknown-slot count means some slot is unknown, and the count
/// never exceeds the hand size.
pub proof fn lemma_hand_unknowns_pos(h: Seq<HandSlot>)
    ensures
        hand_unknowns(h) > 0 <==> exists|j: int| 0 <= j < h.len() && slot_unknown(#[trigger] h[j]),
        hand_unknowns(h) <= h.len(),
    decreases h.len(),
{
    if h.len() > 0 {
        lemma_hand_unknowns_pos(h.drop_last());
        if slot_unknown(h.last()) {
            assert(slot_unknown(h[h.len() - 1]));
        } else {
            if exists|j: int| 0 <= j < h.len() && slot_unknown(#[trigger] h[j]) {
                let j = choose|j: int| 0 <= j < h.len() && slot_unknown(#[trigger] h[j]);
                assert(slot_unknown(h.drop_last()[j]));
            }
        }
    }
}

impl GameState {
    /// Whether `id` can be in an unknown slot of `player`'s hand, for
    /// `player`'s own view.
    pub open spec fn in_fallback(self, player: int, id: CardId) -> bool {
        self.card_collection.in_fallback(player, id)
    }

    /// Whether `id` is a possible play of `player`.
    pub open spec fn in_poss(self, player: int, id: CardId) -> bool {
        self.card_collection.in_possible_plays(player, id)
    }

    /// A throw is feasible if each card is either a concrete card of the
    /// hand or a fallback candidate, and the cards without a concrete slot
    /// fit into the unknown slots.
    pub open spec fn throw_feasible(self, player: int, throw: Seq<CardId>) -> bool {
        &&& forall|i: int|
            0 <= i < throw.len() ==> hand_has_concrete(self.hand(player), #[trigger] throw[i])
                || self.in_fallback(player, throw[i])
        &&& missing_count(self.hand(player), throw) <= hand_unknowns(self.hand(player))
    }

    /// A value occurs on the table in a finished pair.
    pub open spec fn table_has_value(self, v: i8) -> bool {
        exists|i: int|
            0 <= i < self.pairs_finished@.len() && ((#[trigger] self.pairs_finished@[i]).0.1 == v
                || self.pairs_finished@[i].1.1 == v)
    }

    /// A value occurs on the table, in a finished pair or among the cards
    /// still to defend: cards of such values may be thrown.
    pub open spec fn throwable_value(self, v: i8) -> bool {
        self.table_has_value(v) || exists|i: int|
            0 <= i < self.cards_to_defend@.len() && (#[trigger] self.cards_to_defend@[i]).1 == v
    }

    /// The seat that would defend after a reflect.
    pub open spec fn reflect_target(self) -> int {
        self.attackers@[1int % (self.attackers@.len() as int)] as int
    }

    /// How many cards the reflect target could still cover beyond the
    /// current undefended cards.
    pub open spec fn reflect_headroom(self) -> int {
        self.hand(self.reflect_target()).len() - self.cards_to_defend@.len()
    }

    /// Legality of a single action in this state, for the player to move.
    pub open spec fn action_legal(self, a: Action) -> bool {
        if self.current_action == ActionKind::Attack {
            ||| (a.name == ActionKind::PassAttack && self.pairs_finished@.len() > 0
                && a.throw@.len() == 0)
            ||| (a.name == ActionKind::Attack && self.in_poss(self.player_to_play as int, a.card)
                && self.hand(self.defender as int).len() > 0 && (self.pairs_finished@.len() > 0
                ==> self.table_has_value(a.card.1)) && a.throw@.len() == 0)
        } else if self.current_action == ActionKind::Defend {
            ||| (a.name == ActionKind::Take && a.throw@.len() == 0)
            ||| (a.name == ActionKind::Defend && self.in_poss(self.defender as int, a.card)
                && spec_beats(a.card, self.cards_to_defend@[0], self.card_collection.trump_suit)
                && a.throw@.len() == 0)
            ||| (a.name == ActionKind::Reflect && self.pairs_finished@.len() == 0 && self.in_poss(
                self.defender as int,
                a.card,
            ) && a.card.1 == self.cards_to_defend@[0].1 && self.reflect_headroom() >= 1
                && a.throw@.len() == 0)
            ||| (a.name == ActionKind::ReflectTrump && self.pairs_finished@.len() == 0
                && self.in_poss(self.defender as int, a.card) && a.card.1
                == self.cards_to_defend@[0].1 && a.card.0 == self.card_collection.trump_suit
                && !self.reflected_trumps@.contains(a.card) && self.reflect_headroom() >= 0
                && a.throw@.len() == 0)
        } else if self.current_action == ActionKind::ThrowCards {
            &&& a.name == ActionKind::ThrowCards
            &&& forall|i: int|
                0 <= i < a.throw@.len() ==> self.in_poss(
                    self.player_to_play as int,
                    #[trigger] a.throw@[i],
                ) && self.throwable_value(a.throw@[i].1)
            &&& ids_strictly_sorted(a.throw@)
            &&& a.throw@.len() + self.cards_to_defend@.len() <= self.hand(
                self.defender as int,
            ).len()
            &&& self.throw_feasible(self.player_to_play as int, a.throw@)
        } else {
            false
        }
    }

    /// The candidate identities for an unknown slot of `player`'s hand, from
    /// `player`'s own point of view: every non-public identity that is not a
    /// concrete private card of that hand.
    pub fn fallback_identities(&self, player_idx: u8) -> (r: Vec<CardId>)
        requires
            (player_idx as int) < self.hands().len(),
            self.cards_ok(),
        ensures
            distinct_ids(r@),
            forall|id: CardId| r@.contains(id) <==> self.in_fallback(player_idx as int, id),
    {
        let mut r = copy_vec(&self.card_collection.non_public);
        let p = player_idx as usize;
        let n = self.card_collection.hands[p].len();
        let mut j: usize = 0;
        while j < n
            invariant
                n == self.hand(player_idx as int).len(),
                j <= n,
                distinct_ids(r@),
                forall|id: CardId|
                    r@.contains(id) <==> (self.nonpub().contains(id) && !(exists|j2: int|
                        0 <= j2 < j as int && !slot_unknown(
                            #[trigger] self.hand(player_idx as int)[j2],
                        ) && !self.hand(player_idx as int)[j2].2 && slot_id(
                            self.hand(player_idx as int)[j2],
                        ) == id)),
            decreases n - j,
        {
            let s = self.card_collection.hands[p][j];
            if s.0 != -1 && !s.2 {
                let ghost pre = r@;
                remove_id(&mut r, (s.0, s.1));
                proof {
                    assert forall|id: CardId|
                        r@.contains(id) <==> (self.nonpub().contains(id) && !(exists|j2: int|
                            0 <= j2 < j as int + 1 && !slot_unknown(
                                #[trigger] self.hand(player_idx as int)[j2],
                            ) && !self.hand(player_idx as int)[j2].2 && slot_id(
                                self.hand(player_idx as int)[j2],
                            ) == id)) by {
                        if r@.contains(id) {
                            assert(pre.contains(id) && id != (s.0, s.1));
                        }
                    }
                }
            } else {
                proof {
                    assert forall|id: CardId|
                        r@.contains(id) <==> (self.nonpub().contains(id) && !(exists|j2: int|
                            0 <= j2 < j as int + 1 && !slot_unknown(
                                #[trigger] self.hand(player_idx as int)[j2],
                            ) && !self.hand(player_idx as int)[j2].2 && slot_id(
                                self.hand(player_idx as int)[j2],
                            ) == id)) by {
                        assert(slot_unknown(self.hand(player_idx as int)[j as int])
                            || self.hand(player_idx as int)[j as int].2);
                    }
                }
            }
            j = j + 1;
        }
        r
    }

    /// Every identity `player` might be holding: each concrete slot's
    /// identity, plus, if the hand has an unknown slot, every fallback
    /// candidate.
    pub fn possible_card_plays(&self, player_idx: u8) -> (r: Vec<CardId>)
        requires
            (player_idx as int) < self.hands().len(),
            self.cards_ok(),
        ensures
            distinct_ids(r@),
            forall|id: CardId| r@.contains(id) <==> self.in_poss(player_idx as int, id),
    {
        let p = player_idx as usize;
        let mut r: Vec<CardId> = Vec::new();
        let mut has_unknown = false;
        let n = self.card_collection.hands[p].len();
        let mut j: usize = 0;
        while j < n
            invariant
                n == self.hand(player_idx as int).len(),
                j <= n,
                distinct_ids(r@),
                has_unknown <==> exists|j2: int|
                    0 <= j2 < j as int && slot_unknown(#[trigger] self.hand(player_idx as int)[j2]),
                forall|id: CardId|
                    r@.contains(id) <==> exists|j2: int|
                        0 <= j2 < j as int && !slot_unknown(
                            #[trigger] self.hand(player_idx as int)[j2],
                        ) && slot_id(self.hand(player_idx as int)[j2]) == id,
            decreases n - j,
        {
            let s = self.card_collection.hands[p][j];
            if s.0 == -1 {
                has_unknown = true;
                proof {
                    assert(slot_unknown(self.hand(player_idx as int)[j as int]));
                }
            } else {
                let ghost pre = r@;
                let present = contains_id(&r, (s.0, s.1));
                if !present {
                    r.push((s.0, s.1));
                }
                proof {
                    let ghost h = self.hand(player_idx as int);
                    assert(!slot_unknown(h[j as int]) && slot_id(h[j as int]) == (s.0, s.1));
                    assert forall|id: CardId|
                        r@.contains(id) <==> exists|j2: int|
                            0 <= j2 < j as int + 1 && !slot_unknown(#[trigger] h[j2]) && slot_id(
                                h[j2],
                            ) == id by {
                        if !present {
                            lemma_push_contains(pre, (s.0, s.1));
                        }
                        if r@.contains(id) && !pre.contains(id) {
                            assert(id == (s.0, s.1));
                        }
                        if exists|j2: int|
                            0 <= j2 < j as int + 1 && !slot_unknown(#[trigger] h[j2]) && slot_id(
                                h[j2],
                            ) == id {
                            let j2 = choose|j2: int|
                                0 <= j2 < j as int + 1 && !slot_unknown(#[trigger] h[j2])
                                    && slot_id(h[j2]) == id;
                            if j2 == j as int {
                                assert(id == (s.0, s.1));
                                assert(r@.contains(id)) by {
                                    if !present {
                                        assert(r@[r@.len() - 1] == id);
                                    }
                                }
                            } else {
                                assert(pre.contains(id));
                            }
                        }
                    }
                }
            }
            j = j + 1;
        }
        if has_unknown {
            proof {
                lemma_hand_unknowns_pos(self.hand(player_idx as int));
            }
            let fb = self.fallback_identities(player_idx);
            let m = fb.len();
            let mut k: usize = 0;
            while k < m
                invariant
                    m == fb@.len(),
                    k <= m,
                    distinct_ids(r@),
                    hand_unknowns(self.hand(player_idx as int)) > 0,
                    forall|id: CardId|
                        r@.contains(id) <==> (hand_has_concrete(self.hand(player_idx as int), id)
                            || (exists|k2: int| 0 <= k2 < k as int && #[trigger] fb@[k2] == id)),
                decreases m - k,
            {
                let f = fb[k];
                let ghost pre = r@;
                let present = contains_id(&r, f);
                if !present {
                    r.push(f);
                }
                proof {
                    assert forall|id: CardId|
                        r@.contains(id) <==> (hand_has_concrete(self.hand(player_idx as int), id)
                            || (exists|k2: int|
                            0 <= k2 < k as int + 1 && #[trigger] fb@[k2] == id)) by {
                        if !present {
                            lemma_push_contains(pre, f);
                        }
                        assert(pre.contains(id) <==> (hand_has_concrete(
                            self.hand(player_idx as int),
                            id,
                        ) || (exists|k2: int| 0 <= k2 < k as int && #[trigger] fb@[k2] == id)));
                        if r@.contains(id) {
                            if pre.contains(id) {
                                assert(hand_has_concrete(self.hand(player_idx as int), id) || (
                                exists|k2: int| 0 <= k2 < k as int && #[trigger] fb@[k2] == id));
                                if !hand_has_concrete(self.hand(player_idx as int), id) {
                                    let k2 = choose|k2: int|
                                        0 <= k2 < k as int && #[trigger] fb@[k2] == id;
                                    assert(0 <= k2 < k as int + 1 && fb@[k2] == id);
                                    assert(exists|k3: int|
                                        0 <= k3 < k as int + 1 && #[trigger] fb@[k3] == id);
                                }
                            } else {
                                assert(id == f);
                                assert(fb@[k as int] == id);
                                assert(exists|k3: int|
                                    0 <= k3 < k as int + 1 && #[trigger] fb@[k3] == id);
                            }
                        }
                        if exists|k2: int| 0 <= k2 < k as int + 1 && #[trigger] fb@[k2] == id {
                            let k2 = choose|k2: int|
                                0 <= k2 < k as int + 1 && #[trigger] fb@[k2] == id;
                            if k2 == k as int {
                                assert(id == f);
                            } else {
                                assert(pre.contains(id));
                            }
                        }
                    }
                }
                k = k + 1;
            }
            proof {
                lemma_hand_unknowns_pos(self.hand(player_idx as int));
                assert forall|id: CardId|
                    r@.contains(id) <==> self.in_poss(player_idx as int, id) by {
                    if self.in_poss(player_idx as int, id) && !hand_has_concrete(
                        self.hand(player_idx as int),
                        id,
                    ) {
                        assert(self.in_fallback(player_idx as int, id));
                        assert(fb@.contains(id));
                        let k2 = choose|k2: int| 0 <= k2 < fb@.len() && fb@[k2] == id;
                    }
                    if r@.contains(id) && !hand_has_concrete(self.hand(player_idx as int), id) {
                        let k2 = choose|k2: int|
                            0 <= k2 < fb@.len() && #[trigger] fb@[k2] == id;
                        assert(fb@.contains(id));
                    }
                }
            }
        } else {
            proof {
                lemma_hand_unknowns_pos(self.hand(player_idx as int));
            }
        }
        r
    }

    /// Whether some concrete slot of `player`'s hand holds `id`.
    pub fn hand_has_concrete_card(&self, player_idx: u8, id: CardId) -> (r: bool)
        requires
            (player_idx as int) < self.hands().len(),
        ensures
            r == hand_has_concrete(self.hand(player_idx as int), id),
    {
        let p = player_idx as usize;
        let n = self.card_collection.hands[p].len();
        let mut j: usize = 0;
        while j < n
            invariant
                n == self.hand(player_idx as int).len(),
                j <= n,
                forall|j2: int|
                    0 <= j2 < j as int ==> slot_unknown(#[trigger] self.hand(player_idx as int)[j2])
                        || slot_id(self.hand(player_idx as int)[j2]) != id,
            decreases n - j,
        {
            let s = self.card_collection.hands[p][j];
            if s.0 != -1 && s.0 == id.0 && s.1 == id.1 {
                proof {
                    assert(!slot_unknown(self.hand(player_idx as int)[j as int]) && slot_id(
                        self.hand(player_idx as int)[j as int]) == id);
                }
                return true;
            }
            j = j + 1;
        }
        false
    }

    /// The number of unknown-identity slots in `player`'s hand.
    pub fn count_unknown_slots(&self, player_idx: u8) -> (r: usize)
        requires
            (player_idx as int) < self.hands().len(),
        ensures
            r == hand_unknowns(self.hand(player_idx as int)),
    {
        let p = player_idx as usize;
        let n = self.card_collection.hands[p].len();
        let mut j: usize = 0;
        let mut count: usize = 0;
        while j < n
            invariant
                n == self.hand(player_idx as int).len(),
                j <= n,
                count == hand_unknowns(self.hand(player_idx as int).subrange(0, j as int)),
                count <= j,
            decreases n - j,
        {
            let ghost h = self.hand(player_idx as int);
            let s = self.card_collection.hands[p][j];
            if s.0 == -1 {
                count = count + 1;
            }
            proof {
                assert(h.subrange(0, j as int + 1).drop_last() =~= h.subrange(0, j as int));
                assert(h.subrange(0, j as int + 1).last() == h[j as int]);
            }
            j = j + 1;
        }
        proof {
            assert(self.hand(player_idx as int).subrange(0, n as int) =~= self.hand(
                player_idx as int));
        }
        count
    }

    /// Whether `v` is the value of some card of a finished pair.
    pub fn value_on_table(&self, v: i8) -> (r: bool)
        ensures
            r == self.table_has_value(v),
    {
        let n = self.pairs_finished.len();
        let mut i: usize = 0;
        while i < n
            invariant
                n == self.pairs_finished@.len(),
                i <= n,
                forall|i2: int|
                    0 <= i2 < i as int ==> (#[trigger] self.pairs_finished@[i2]).0.1 != v
                        && self.pairs_finished@[i2].1.1 != v,
            decreases n - i,
        {
            let pair = self.pairs_finished[i];
            if pair.0.1 == v || pair.1.1 == v {
                return true;
            }
            i = i + 1;
        }
        false
    }

    /// Whether `v` is on the table at all, in a finished pair or among the
    /// cards still to defend.
    pub fn value_throwable(&self, v: i8) -> (r: bool)
        ensures
            r == self.throwable_value(v),
    {
        if self.value_on_table(v) {
            return true;
        }
        let n = self.cards_to_defend.len();
        let mut i: usize = 0;
        while i < n
            invariant
                n == self.cards_to_defend@.len(),
                i <= n,
                forall|i2: int|
                    0 <= i2 < i as int ==> (#[trigger] self.cards_to_defend@[i2]).1 != v,
            decreases n - i,
        {
            if self.cards_to_defend[i].1 == v {
                return true;
            }
            i = i + 1;
        }
        false
    }

    /// Whether `player` can throw exactly the cards of `throw`, each card
    /// having the identities of `fallback` as the candidates for unknown
    /// slots: the concrete matches of the hand are consumed first, and the
    /// unknown slots must cover the rest.
    pub fn can_throw(&self, throw: &Vec<CardId>, fallback: &Vec<CardId>, player_idx: u8) -> (r:
        bool)
        requires
            (player_idx as int) < self.hands().len(),
            distinct_ids(throw@),
            forall|id: CardId|
                fallback@.contains(id) <==> self.in_fallback(player_idx as int, id),
        ensures
            r == self.throw_feasible(player_idx as int, throw@),
    {
        let n = throw.len();
        let mut missing: usize = 0;
        let mut i: usize = 0;
        while i < n
            invariant
                n == throw@.len(),
                i <= n,
                missing == missing_count(self.hand(player_idx as int), throw@.subrange(
                    0,
                    i as int,
                )),
                missing <= i,
                forall|i2: int|
                    0 <= i2 < i as int ==> hand_has_concrete(
                        self.hand(player_idx as int),
                        #[trigger] throw@[i2],
                    ) || self.in_fallback(player_idx as int, throw@[i2]),
            decreases n - i,
        {
            let t = throw[i];
            let is_concrete = self.hand_has_concrete_card(player_idx, t);
            if !is_concrete {
                if !contains_id(fallback, t) {
                    return false;
                }
                missing = missing + 1;
            }
            proof {
                assert(throw@.subrange(0, i as int + 1).drop_last() =~= throw@.subrange(
                    0,
                    i as int,
                ));
                assert(throw@.subrange(0, i as int + 1).last() == throw@[i as int]);
            }
            i = i + 1;
        }
        proof {
            assert(throw@.subrange(0, n as int) =~= throw@);
        }
        let u = self.count_unknown_slots(player_idx);
        missing <= u
    }

    /// Every action the player to move may announce in this state. The list
    /// is sound: each entry satisfies `action_legal`. It is complete for the
    /// single-card actions; in the defend phase `Take` is always offered and
    /// in the throw phase the empty throw, so those lists are never empty.
    pub fn allowed_plays(&self) -> (r: Vec<Action>)
        requires
            self.wf(),
            !self.is_end_state,
        ensures
            forall|i: int| 0 <= i < r@.len() ==> self.action_legal(#[trigger] r@[i]),
            self.current_action == ActionKind::Attack && self.pairs_finished@.len() > 0
                ==> r@.len() > 0 && has_act(r@, ActionKind::PassAttack, (-1i8, -1i8)),
            self.current_action == ActionKind::Attack && self.hand(self.defender as int).len() > 0
                && self.hand(self.player_to_play as int).len() > 0 ==> r@.len() > 0,
            self.current_action == ActionKind::Attack ==> forall|id: CardId|
                #![trigger self.in_poss(self.player_to_play as int, id)]
                (self.in_poss(self.player_to_play as int, id) && self.hand(
                    self.defender as int,
                ).len() > 0 && (self.pairs_finished@.len() > 0 ==> self.table_has_value(id.1)))
                    ==> has_act(r@, ActionKind::Attack, id),
            self.current_action == ActionKind::Defend ==> r@.len() > 0 && has_act(
                r@,
                ActionKind::Take,
                (-1i8, -1i8),
            ),
            self.current_action == ActionKind::Defend ==> forall|id: CardId|
                #![trigger self.in_poss(self.defender as int, id)]
                (self.in_poss(self.defender as int, id) && spec_beats(
                    id,
                    self.cards_to_defend@[0],
                    self.card_collection.trump_suit,
                )) ==> has_act(r@, ActionKind::Defend, id),
            self.current_action == ActionKind::Defend && self.pairs_finished@.len() == 0
                ==> forall|id: CardId|
                #![trigger self.in_poss(self.defender as int, id)]
                (self.in_poss(self.defender as int, id) && id.1 == self.cards_to_defend@[0].1
                    && self.reflect_headroom() >= 1) ==> has_act(r@, ActionKind::Reflect, id),
            self.current_action == ActionKind::Defend && self.pairs_finished@.len() == 0
                ==> forall|id: CardId|
                #![trigger self.in_poss(self.defender as int, id)]
                (self.in_poss(self.defender as int, id) && id.1 == self.cards_to_defend@[0].1
                    && id.0 == self.card_collection.trump_suit
                    && !self.reflected_trumps@.contains(id) && self.reflect_headroom() >= 0)
                    ==> has_act(r@, ActionKind::ReflectTrump, id),
            self.current_action == ActionKind::ThrowCards ==> r@.len() > 0 && (exists|i: int|
                0 <= i < r@.len() && (#[trigger] r@[i]).name == ActionKind::ThrowCards
                    && r@[i].throw@.len() == 0),
            self.current_action == ActionKind::ThrowCards ==> (forall|id: CardId|
                #![trigger self.in_poss(self.player_to_play as int, id)]
                (self.in_poss(self.player_to_play as int, id) && self.throwable_value(id.1)
                    && self.throw_feasible(self.player_to_play as int, seq![id])
                    && self.cards_to_defend@.len() + 1 <= self.hand(self.defender as int).len()
                    && self.hand(self.player_to_play as int).len() >= 1) ==> has_throw(
                    r@,
                    seq![id],
                )),
    {
        let mut acts: Vec<Action> = Vec::new();
        let player = self.player_to_play;
        if self.current_action == ActionKind::Attack {
            let poss = self.possible_card_plays(player);
            let pairs_on = self.pairs_finished.len() > 0;
            if pairs_on {
                acts.push(Action { name: ActionKind::PassAttack, card: (-1, -1), throw: Vec::new() });
                proof {
                    assert(acts@[0].name == ActionKind::PassAttack && acts@[0].card == (-1i8, -1i8));
                }
            }
            if self.card_collection.hands[self.defender as usize].len() > 0 {
                let n = poss.len();
                let mut k: usize = 0;
                while k < n
                    invariant
                        n == poss@.len(),
                        k <= n,
                        forall|i: int| 0 <= i < acts@.len() ==> self.action_legal(
                            #[trigger] acts@[i]),
                        pairs_on ==> acts@.len() > 0 && has_act(
                            acts@,
                            ActionKind::PassAttack,
                            (-1i8, -1i8),
                        ),
                        forall|k2: int|
                            0 <= k2 < k as int && (pairs_on ==> self.table_has_value(
                                (#[trigger] poss@[k2]).1,
                            )) ==> has_act(acts@, ActionKind::Attack, poss@[k2]),
                    decreases n - k,
                {
                    let id = poss[k];
                    let ghost pre = acts@;
                    let pushed = !pairs_on || self.value_on_table(id.1);
                    if pushed {
                        acts.push(Action { name: ActionKind::Attack, card: id, throw: Vec::new() });
                    }
                    proof {
                        assert(poss@.contains(id)) by {
                            assert(poss@[k as int] == id);
                        }
                        if pushed {
                            assert(acts@[acts@.len() - 1].name == ActionKind::Attack
                                && acts@[acts@.len() - 1].card == id);
                            assert(self.action_legal(acts@[acts@.len() - 1]));
                        }
                        assert(forall|i: int| 0 <= i < pre.len() ==> acts@[i] == pre[i]);
                        lemma_has_act_prefix(pre, acts@);
                        assert forall|k2: int|
                            0 <= k2 < k as int + 1 && (pairs_on ==> self.table_has_value(
                                (#[trigger] poss@[k2]).1,
                            )) implies has_act(acts@, ActionKind::Attack, poss@[k2]) by {
                            if k2 == k as int {
                                assert(acts@[acts@.len() - 1].name == ActionKind::Attack
                                    && acts@[acts@.len() - 1].card == poss@[k2]);
                            }
                        }
                    }
                    k = k + 1;
                }
                proof {
                    assert forall|id: CardId|
                        #![trigger self.in_poss(self.player_to_play as int, id)]
                        (self.in_poss(self.player_to_play as int, id) && self.hand(
                            self.defender as int,
                        ).len() > 0 && (self.pairs_finished@.len() > 0 ==> self.table_has_value(
                            id.1,
                        ))) implies has_act(acts@, ActionKind::Attack, id) by {
                        assert(poss@.contains(id));
                        let k2 = choose|k2: int| 0 <= k2 < poss@.len() && poss@[k2] == id;
                    }
                    // an attacker with a card always has some legal attack
                    if self.hand(self.player_to_play as int).len() > 0
                        && self.pairs_finished@.len() == 0 {
                        crate::laws::lemma_poss_nonempty(*self, self.player_to_play as int);
                        let id = choose|id: CardId| self.in_poss(self.player_to_play as int, id);
                        assert(has_act(acts@, ActionKind::Attack, id));
                        let w = choose|i: int|
                            0 <= i < acts@.len() && (#[trigger] acts@[i]).name
                                == ActionKind::Attack && acts@[i].card == id;
                        assert(acts@.len() > 0);
                    }
                }
            }
        } else if self.current_action == ActionKind::Defend {
            let to_defend = self.cards_to_defend[0];
            let trump = self.card_collection.trump_suit;
            let poss = self.possible_card_plays(player);
            let pairs_none = self.pairs_finished.len() == 0;
            let n = poss.len();
            let mut k: usize = 0;
            while k < n
                invariant
                    n == poss@.len(),
                    k <= n,
                    to_defend == self.cards_to_defend@[0],
                    trump == self.card_collection.trump_suit,
                    forall|i: int| 0 <= i < acts@.len() ==> self.action_legal(#[trigger] acts@[i]),
                    forall|k2: int|
                        0 <= k2 < k as int && spec_beats(#[trigger] poss@[k2], to_defend, trump)
                            ==> has_act(acts@, ActionKind::Defend, poss@[k2]),
                    pairs_none ==> forall|k2: int|
                        0 <= k2 < k as int && (#[trigger] poss@[k2]).1 == to_defend.1
                            && self.reflect_headroom() >= 1 ==> has_act(
                            acts@,
                            ActionKind::Reflect,
                            poss@[k2],
                        ),
                    pairs_none ==> forall|k2: int|
                        0 <= k2 < k as int && (#[trigger] poss@[k2]).1 == to_defend.1
                            && poss@[k2].0 == trump && !self.reflected_trumps@.contains(poss@[k2])
                            && self.reflect_headroom() >= 0 ==> has_act(
                            acts@,
                            ActionKind::ReflectTrump,
                            poss@[k2],
                        ),
                decreases n - k,
            {
                let id = poss[k];
                let ghost pre = acts@;
                proof {
                    assert(poss@.contains(id)) by {
                        assert(poss@[k as int] == id);
                    }
                }
                if pairs_none {
                    let ti = 1 % self.attackers.len();
                    let nd = self.attackers[ti];
                    let ndl = self.card_collection.hands[nd as usize].len();
                    let cl = self.cards_to_defend.len();
                    proof {
                        assert(nd as int == self.reflect_target());
                        assert(ndl as int - cl as int == self.reflect_headroom());
                    }
                    if ndl > cl && id.1 == to_defend.1 {
                        let ghost p1 = acts@;
                        acts.push(Action { name: ActionKind::Reflect, card: id, throw: Vec::new() });
                        proof {
                            assert(acts@[acts@.len() - 1].name == ActionKind::Reflect
                                && acts@[acts@.len() - 1].card == id);
                            assert(self.action_legal(acts@[acts@.len() - 1]));
                            assert(has_act(acts@, ActionKind::Reflect, id));
                        }
                    }
                    if ndl >= cl && id.1 == to_defend.1 && id.0 == trump && !contains_id(
                        &self.reflected_trumps,
                        id,
                    ) {
                        let ghost p2 = acts@;
                        acts.push(Action {
                            name: ActionKind::ReflectTrump,
                            card: id,
                            throw: Vec::new(),
                        });
                        proof {
                            assert(forall|i: int| 0 <= i < p2.len() ==> acts@[i] == p2[i]);
                            lemma_has_act_prefix(p2, acts@);
                            assert(acts@[acts@.len() - 1].name == ActionKind::ReflectTrump
                                && acts@[acts@.len() - 1].card == id);
                            assert(self.action_legal(acts@[acts@.len() - 1]));
                            assert(has_act(acts@, ActionKind::ReflectTrump, id));
                        }
                    }
                }
                if beats(id, to_defend, trump) {
                    let ghost p3 = acts@;
                    acts.push(Action { name: ActionKind::Defend, card: id, throw: Vec::new() });
                    proof {
                        assert(forall|i: int| 0 <= i < p3.len() ==> acts@[i] == p3[i]);
                        lemma_has_act_prefix(p3, acts@);
                        assert(acts@[acts@.len() - 1].name == ActionKind::Defend
                            && acts@[acts@.len() - 1].card == id);
                        assert(self.action_legal(acts@[acts@.len() - 1]));
                        assert(has_act(acts@, ActionKind::Defend, id));
                    }
                }
                proof {
                    assert(forall|i: int| 0 <= i < pre.len() ==> acts@[i] == pre[i]);
                    lemma_has_act_prefix(pre, acts@);
                    assert forall|i: int| 0 <= i < acts@.len() implies self.action_legal(
                        #[trigger] acts@[i]) by {
                        if i < pre.len() {
                            assert(acts@[i] == pre[i]);
                        }
                    }
                }
                k = k + 1;
            }
            let ghost pt = acts@;
            acts.push(Action { name: ActionKind::Take, card: (-1, -1), throw: Vec::new() });
            proof {
                assert(forall|i: int| 0 <= i < pt.len() ==> acts@[i] == pt[i]);
                lemma_has_act_prefix(pt, acts@);
                assert(acts@[acts@.len() - 1].name == ActionKind::Take && acts@[acts@.len()
                    - 1].card == (-1i8, -1i8));
                assert(has_act(acts@, ActionKind::Take, (-1i8, -1i8)));
                assert forall|id: CardId|
                    #![trigger self.in_poss(self.defender as int, id)]
                    (self.in_poss(self.defender as int, id) && spec_beats(
                        id,
                        self.cards_to_defend@[0],
                        self.card_collection.trump_suit,
                    )) implies has_act(acts@, ActionKind::Defend, id) by {
                    assert(poss@.contains(id));
                    let k2 = choose|k2: int| 0 <= k2 < poss@.len() && poss@[k2] == id;
                }
                if pairs_none {
                    assert forall|id: CardId|
                        #![trigger self.in_poss(self.defender as int, id)]
                        (self.in_poss(self.defender as int, id) && id.1
                            == self.cards_to_defend@[0].1 && self.reflect_headroom() >= 1) implies
                        has_act(acts@, ActionKind::Reflect, id) by {
                        assert(poss@.contains(id));
                        let k2 = choose|k2: int| 0 <= k2 < poss@.len() && poss@[k2] == id;
                    }
                    assert forall|id: CardId|
                        #![trigger self.in_poss(self.defender as int, id)]
                        (self.in_poss(self.defender as int, id) && id.1
                            == self.cards_to_defend@[0].1 && id.0
                            == self.card_collection.trump_suit && !self.reflected_trumps@.contains(
                            id,
                        ) && self.reflect_headroom() >= 0) implies has_act(
                        acts@,
                        ActionKind::ReflectTrump,
                        id,
                    ) by {
                        assert(poss@.contains(id));
                        let k2 = choose|k2: int| 0 <= k2 < poss@.len() && poss@[k2] == id;
                    }
                }
            }
        } else {
            let poss = self.possible_card_plays(player);
            let mut lst: Vec<CardId> = Vec::new();
            let n = poss.len();
            let mut k: usize = 0;
            while k < n
                invariant
                    n == poss@.len(),
                    k <= n,
                    distinct_ids(lst@),
                    forall|id: CardId|
                        lst@.contains(id) <==> (exists|k2: int|
                            0 <= k2 < k as int && #[trigger] poss@[k2] == id
                                && self.throwable_value(id.1)),
                decreases n - k,
            {
                let id = poss[k];
                let ghost pre = lst@;
                let keep = self.value_throwable(id.1);
                if keep {
                    proof {
                        assert(!pre.contains(id)) by {
                            if pre.contains(id) {
                                let k2 = choose|k2: int|
                                    0 <= k2 < k as int && #[trigger] poss@[k2] == id
                                        && self.throwable_value(id.1);
                                assert(poss@[k2] == poss@[k as int]);
                            }
                        }
                    }
                    lst.push(id);
                }
                proof {
                    assert forall|x: CardId|
                        lst@.contains(x) <==> (exists|k2: int|
                            0 <= k2 < k as int + 1 && #[trigger] poss@[k2] == x
                                && self.throwable_value(x.1)) by {
                        assert(pre.contains(x) <==> (exists|k2: int|
                            0 <= k2 < k as int && #[trigger] poss@[k2] == x
                                && self.throwable_value(x.1)));
                        if keep {
                            lemma_push_contains(pre, id);
                        }
                        if lst@.contains(x) {
                            if pre.contains(x) {
                                let k2 = choose|k2: int|
                                    0 <= k2 < k as int && #[trigger] poss@[k2] == x
                                        && self.throwable_value(x.1);
                                assert(0 <= k2 < k as int + 1 && poss@[k2] == x);
                            } else {
                                assert(x == id && keep);
                                assert(poss@[k as int] == x);
                            }
                        }
                        if exists|k2: int|
                            0 <= k2 < k as int + 1 && #[trigger] poss@[k2] == x
                                && self.throwable_value(x.1) {
                            let k2 = choose|k2: int|
                                0 <= k2 < k as int + 1 && #[trigger] poss@[k2] == x
                                    && self.throwable_value(x.1);
                            if k2 == k as int {
                                assert(keep && x == id);
                            } else {
                                assert(pre.contains(x));
                            }
                        }
                    }
                }
                k = k + 1;
            }
            sort_ids(&mut lst);
            let def_len = self.card_collection.hands[self.defender as usize].len();
            let cl = self.cards_to_defend.len();
            let available = def_len - cl;
            acts.push(Action { name: ActionKind::ThrowCards, card: (-1, -1), throw: Vec::new() });
            proof {
                assert(acts@[acts@.len() - 1].name == ActionKind::ThrowCards
                    && acts@[acts@.len() - 1].throw@.len() == 0);
                assert(self.action_legal(acts@[acts@.len() - 1]));
            }
            let hand_len = self.card_collection.hands[player as usize].len();
            let mut max_throws = available;
            if lst.len() < max_throws {
                max_throws = lst.len();
            }
            if hand_len < max_throws {
                max_throws = hand_len;
            }
            let m = lst.len();
            proof {
                assert forall|i: int| 0 <= i < lst@.len() implies valid_id(
                    #[trigger] lst@[i]) by {
                    assert(lst@.contains(lst@[i]));
                    let id = lst@[i];
                    assert(self.in_poss(self.player_to_play as int, id));
                    if hand_has_concrete(self.hand(self.player_to_play as int), id) {
                        let j = choose|j: int|
                            0 <= j < self.hand(self.player_to_play as int).len()
                                && !slot_unknown(
                                #[trigger] self.hand(self.player_to_play as int)[j],
                            ) && slot_id(self.hand(self.player_to_play as int)[j]) == id;
                        assert(self.slot_ok(self.hand(self.player_to_play as int)[j]));
                    } else {
                        assert(self.nonpub().contains(id));
                        let j = choose|j: int|
                            0 <= j < self.nonpub().len() && self.nonpub()[j] == id;
                    }
                }
                lemma_distinct_valid_bound(lst@);
            }
            if max_throws > 0 {
                let fallback = self.fallback_identities(player);
                // every feasible single-card throw, in canonical order
                let mut k2: usize = 0;
                while k2 < m
                    invariant
                        m == lst@.len(),
                        k2 <= m,
                        max_throws >= 1,
                        forall|i: int| 0 <= i < acts@.len() ==> self.action_legal(
                            #[trigger] acts@[i]),
                        exists|i: int|
                            0 <= i < acts@.len() && (#[trigger] acts@[i]).name
                                == ActionKind::ThrowCards && acts@[i].throw@.len() == 0,
                        forall|kk: int|
                            #![trigger lst@[kk]]
                            0 <= kk < k2 as int && self.throw_feasible(
                                self.player_to_play as int,
                                seq![lst@[kk]],
                            ) ==> has_throw(acts@, seq![lst@[kk]]),
                    decreases m - k2,
                {
                    let mut single: Vec<CardId> = Vec::new();
                    single.push(lst[k2]);
                    let ghost sv = single@;
                    let ghost acts0 = acts@;
                    proof {
                        assert(sv =~= seq![lst@[k2 as int]]);
                    }
                    let feas = self.can_throw(&single, &fallback, player);
                    if feas {
                        acts.push(Action {
                            name: ActionKind::ThrowCards,
                            card: (-1, -1),
                            throw: single,
                        });
                        proof {
                            assert(forall|i: int| 0 <= i < acts0.len() ==> acts@[i] == acts0[i]);
                            let a = acts@[acts@.len() - 1];
                            assert(a.name == ActionKind::ThrowCards && a.throw@ == sv);
                            assert(lst@.contains(lst@[k2 as int]));
                            assert(self.action_legal(a)) by {
                                assert(forall|i2: int|
                                    0 <= i2 < a.throw@.len() ==> a.throw@[i2] == lst@[k2 as int]);
                                assert(self.in_poss(
                                    self.player_to_play as int,
                                    lst@[k2 as int],
                                ) && self.throwable_value(lst@[k2 as int].1));
                                assert(ids_strictly_sorted(a.throw@));
                                assert(a.throw@.len() + self.cards_to_defend@.len() <= self.hand(
                                    self.defender as int).len());
                            }
                            assert(has_throw(acts@, sv));
                        }
                    }
                    proof {
                        assert(forall|i: int| 0 <= i < acts0.len() ==> acts@[i] == acts0[i]);
                        lemma_has_throw_prefix(acts0, acts@);
                        assert forall|kk: int|
                            #![trigger lst@[kk]]
                            0 <= kk < k2 as int + 1 && self.throw_feasible(
                                self.player_to_play as int,
                                seq![lst@[kk]],
                            ) implies has_throw(acts@, seq![lst@[kk]]) by {
                            if kk == k2 as int {
                                assert(feas == self.throw_feasible(
                                    self.player_to_play as int,
                                    sv,
                                ));
                                assert(sv == seq![lst@[kk]]);
                                assert(has_throw(acts@, sv));
                            } else {
                                assert(has_throw(acts0, seq![lst@[kk]]));
                            }
                        }
                    }
                    k2 = k2 + 1;
                }
                // larger throws: every subset of two or more cards, found by
                // walking the bits of a mask
                let bound: u64 = 1u64 << (m as u64);
                let mut s: u64 = 1;
                while s < bound
                    invariant
                        m == lst@.len(),
                        m <= 36,
                        bound == 1u64 << (m as u64),
                        forall|i: int| 0 <= i < acts@.len() ==> self.action_legal(
                            #[trigger] acts@[i]),
                        exists|i: int|
                            0 <= i < acts@.len() && (#[trigger] acts@[i]).name
                                == ActionKind::ThrowCards && acts@[i].throw@.len() == 0,
                        forall|kk: int|
                            #![trigger lst@[kk]]
                            0 <= kk < m as int && self.throw_feasible(
                                self.player_to_play as int,
                                seq![lst@[kk]],
                            ) ==> has_throw(acts@, seq![lst@[kk]]),
                    decreases bound - s,
                {
                    let mut sub: Vec<CardId> = Vec::new();
                    let mut word: u64 = s;
                    let mut bit: usize = 0;
                    while bit < m
                        invariant
                            m == lst@.len(),
                            bit <= m,
                            forall|q: int|
                                0 <= q < sub@.len() ==> exists|idx: int|
                                    0 <= idx < bit as int && #[trigger] sub@[q] == lst@[idx],
                            forall|q1: int, q2: int|
                                0 <= q1 < q2 < sub@.len() ==> id_lt(sub@[q1], sub@[q2]),
                            sub@.len() > 0 ==> exists|idx: int|
                                0 <= idx < bit as int && sub@[sub@.len() - 1] == lst@[idx] && (
                                forall|idx2: int|
                                    bit as int <= idx2 < m ==> id_lt(
                                        lst@[idx],
                                        #[trigger] lst@[idx2],
                                    )),
                            forall|x: CardId| sub@.contains(x) ==> lst@.contains(x),
                        decreases m - bit,
                    {
                        if (word & 1u64) == 1u64 {
                            let ghost presub = sub@;
                            sub.push(lst[bit]);
                            proof {
                                assert(sub@[sub@.len() - 1] == lst@[bit as int]);
                                assert forall|q1: int, q2: int|
                                    0 <= q1 < q2 < sub@.len() implies id_lt(
                                    sub@[q1],
                                    sub@[q2],
                                ) by {
                                    if q2 == sub@.len() - 1 {
                                        let li = choose|idx: int|
                                            0 <= idx < bit as int && presub[presub.len() - 1]
                                                == lst@[idx] && (forall|idx2: int|
                                                bit as int <= idx2 < m ==> id_lt(
                                                    lst@[idx],
                                                    #[trigger] lst@[idx2],
                                                ));
                                        assert(id_lt(lst@[li], lst@[bit as int]));
                                        if q1 < presub.len() - 1 {
                                            assert(id_lt(presub[q1], presub[presub.len() - 1]));
                                        }
                                        assert(sub@[q1] == presub[q1]);
                                    } else {
                                        assert(sub@[q1] == presub[q1] && sub@[q2] == presub[q2]);
                                    }
                                }
                                assert forall|q: int|
                                    0 <= q < sub@.len() implies exists|idx: int|
                                        0 <= idx < bit as int + 1 && #[trigger] sub@[q]
                                            == lst@[idx] by {
                                    if q == sub@.len() - 1 {
                                        assert(sub@[q] == lst@[bit as int]);
                                    } else {
                                        let idx = choose|idx: int|
                                            0 <= idx < bit as int && #[trigger] presub[q]
                                                == lst@[idx];
                                        assert(sub@[q] == lst@[idx]);
                                    }
                                }
                                assert(sub@.len() > 0 && sub@[sub@.len() - 1] == lst@[bit as int]
                                    && (forall|idx2: int|
                                    bit as int + 1 <= idx2 < m ==> id_lt(
                                        lst@[bit as int],
                                        #[trigger] lst@[idx2],
                                    )));
                                assert forall|x: CardId| sub@.contains(x) implies lst@.contains(
                                    x,
                                ) by {
                                    lemma_push_contains(presub, lst@[bit as int]);
                                    if x == lst@[bit as int] {
                                        assert(lst@.contains(x)) by {
                                            assert(lst@[bit as int] == x);
                                        }
                                    }
                                }
                            }
                        } else {
                            proof {
                                if sub@.len() > 0 {
                                    let li = choose|idx: int|
                                        0 <= idx < bit as int && sub@[sub@.len() - 1] == lst@[idx]
                                            && (forall|idx2: int|
                                            bit as int <= idx2 < m ==> id_lt(
                                                lst@[idx],
                                                #[trigger] lst@[idx2],
                                            ));
                                    assert(0 <= li < bit as int + 1 && sub@[sub@.len() - 1]
                                        == lst@[li] && (forall|idx2: int|
                                        bit as int + 1 <= idx2 < m ==> id_lt(
                                            lst@[li],
                                            #[trigger] lst@[idx2],
                                        )));
                                }
                            }
                        }
                        word = word >> 1u64;
                        bit = bit + 1;
                    }
                    if sub.len() >= 2 && sub.len() <= max_throws {
                        let ghost acts0 = acts@;
                        proof {
                            assert forall|q1: int, q2: int|
                                0 <= q1 < q2 < sub@.len() implies sub@[q1] != sub@[q2] by {
                                assert(id_lt(sub@[q1], sub@[q2]));
                            }
                        }
                        if self.can_throw(&sub, &fallback, player) {
                            let ghost subv = sub@;
                            acts.push(Action {
                                name: ActionKind::ThrowCards,
                                card: (-1, -1),
                                throw: sub,
                            });
                            proof {
                                assert(forall|i: int| 0 <= i < acts0.len() ==> acts@[i] == acts0[i]);
                                lemma_has_throw_prefix(acts0, acts@);
                                let a = acts@[acts@.len() - 1];
                                assert(a.name == ActionKind::ThrowCards && a.throw@ == subv);
                                assert forall|i2: int|
                                    0 <= i2 < a.throw@.len() implies self.in_poss(
                                    self.player_to_play as int,
                                    #[trigger] a.throw@[i2],
                                ) && self.throwable_value(a.throw@[i2].1) by {
                                    assert(subv.contains(subv[i2])) by {
                                        assert(subv[i2] == subv[i2]);
                                    }
                                    assert(lst@.contains(subv[i2]));
                                }
                                assert(ids_strictly_sorted(a.throw@)) by {
                                    assert forall|q1: int, q2: int|
                                        0 <= q1 < q2 < subv.len() implies (subv[q1].0 < subv[q2].0
                                        || (subv[q1].0 == subv[q2].0 && subv[q1].1
                                        < subv[q2].1)) by {
                                        assert(id_lt(subv[q1], subv[q2]));
                                    }
                                }
                                assert(a.throw@.len() + self.cards_to_defend@.len() <= self.hand(
                                    self.defender as int).len());
                                assert(self.throw_feasible(self.player_to_play as int, a.throw@));
                                assert(self.action_legal(a));
                            }
                        }
                    }
                    s = s + 1;
                }
            }
            proof {
                // every feasible single-card throw is offered whenever a
                // throw is possible at all
                assert forall|id: CardId|
                    #![trigger self.in_poss(self.player_to_play as int, id)]
                    (self.in_poss(self.player_to_play as int, id) && self.throwable_value(id.1)
                        && self.throw_feasible(self.player_to_play as int, seq![id])
                        && self.cards_to_defend@.len() + 1 <= self.hand(
                        self.defender as int,
                    ).len() && self.hand(self.player_to_play as int).len() >= 1) implies has_throw(
                    acts@,
                    seq![id],
                ) by {
                    assert(lst@.contains(id));
                    let k = choose|k: int| 0 <= k < lst@.len() && lst@[k] == id;
                    assert(available >= 1);
                    assert(lst@.len() >= 1);
                    assert(hand_len >= 1);
                    assert(max_throws >= 1);
                    assert(has_throw(acts@, seq![lst@[k]]));
                    assert(seq![lst@[k]] =~= seq![id]);
                }
            }
        }
        acts
    }
}

} // verus!
