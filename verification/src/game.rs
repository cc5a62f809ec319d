//! The full Durak position: deck, hands, trick progress, turn order and the
//! end-of-game flag, with the state invariant that the rest of the engine
//! maintains.

use vstd::prelude::*;
use vstd::multiset::Multiset;

use crate::cards::{Card, CardId, HandSlot, ActionKind, ACE_VALUE, valid_id, slot_unknown, slot_id,
    unknown_card};
use crate::collection::{
    CardCollection, all_ids, full_mset, ids_mset, card_mset, deck_mset, deck_unknowns, hand_mset,
    hand_unknowns, hands_mset, hands_unknowns, pairs_mset, slot_mset, distinct_ids, remove_id,
    copy_vec, lemma_all_ids_valid, lemma_all_ids_distinct, lemma_deck_mset_update,
    lemma_hand_mset_push, lemma_hands_mset_update, lemma_ids_mset_contains, lemma_distinct_counts,
};
use rand::rngs::StdRng;
use crate::rng::rng_below;

verus! {

/// A Durak position. Seats are numbered `0..num_players`; `attackers` lists
/// the attacking seats of the current trick in rotation order (the defender
/// excluded), and `current_attacker` indexes into it.
pub struct GameState {
    /// The game is over; `loser` then names the losing seat.
    pub is_end_state: bool,
    /// Seat of the loser, meaningful once `is_end_state` holds.
    pub loser: u8,
    /// Hidden-information bookkeeping: pool, non-public set, hands.
    pub card_collection: CardCollection,
    /// Bottom (position 0, face up) to top; draws pop from the top.
    pub deck: Vec<Card>,
    /// Attacking seats of this trick, in order; the defender is not listed.
    pub attackers: Vec<u8>,
    /// Seat of the defender of this trick.
    pub defender: u8,
    /// Index into `attackers` of the attacker whose turn it is.
    pub current_attacker: u8,
    /// Seat whose action is expected next.
    pub player_to_play: u8,
    /// Order in which seats refill their hands at trick end.
    pub draw_order: Vec<u8>,
    /// Index into `attackers` of the attacker who started the throw round.
    pub attacker_to_start_throwing: u8,
    /// Seat of the attacker who most recently played a card.
    pub last_played_attacker: u8,
    /// Trumps already used for a trump reflect this trick.
    pub reflected_trumps: Vec<CardId>,
    /// The current phase: `Attack`, `Defend` or `ThrowCards`.
    pub current_action: ActionKind,
    /// Successfully defended (attack, defense) pairs on the table.
    pub pairs_finished: Vec<(CardId, CardId)>,
    /// Attack cards not yet answered, front first.
    pub cards_to_defend: Vec<CardId>,
    /// Cards burnt after a successful defense.
    pub discard: Vec<CardId>,
    /// Number of seats; between 2 and 6.
    pub num_players: u8,
    /// Seat that opens the current trick.
    pub main_attacker: u8,
}

impl GameState {
    /// All hands, as a sequence indexed by seat.
    pub open spec fn hands(self) -> Seq<Vec<HandSlot>> {
        self.card_collection.hands@
    }

    /// One seat's hand.
    pub open spec fn hand(self, p: int) -> Seq<HandSlot> {
        self.card_collection.hands@[p]@
    }

    /// The pool of identities still floating in unknown slots.
    pub open spec fn pool(self) -> Seq<CardId> {
        self.card_collection.unknown@
    }

    /// The identities not yet revealed to everyone.
    pub open spec fn nonpub(self) -> Seq<CardId> {
        self.card_collection.non_public@
    }

    /// Everything the state accounts for: concrete deck cards, concrete hand
    /// slots, the table, the pool and the discard.
    pub open spec fn placed_mset(self) -> Multiset<CardId> {
        deck_mset(self.deck@).add(hands_mset(self.hands())).add(
            ids_mset(self.cards_to_defend@)).add(pairs_mset(self.pairs_finished@)).add(
            ids_mset(self.pool())).add(ids_mset(self.discard@))
    }

    /// Card conservation: the state always accounts for the full 36-card
    /// deck, every identity exactly once.
    pub open spec fn conserved(self) -> bool {
        self.placed_mset() == full_mset()
    }

    /// Every unknown slot or face-down deck entry corresponds to exactly one
    /// pool identity.
    pub open spec fn counts_ok(self) -> bool {
        deck_unknowns(self.deck@) + hands_unknowns(self.hands()) == self.pool().len()
    }

    /// A deck entry is either the face-down sentinel or a valid, public,
    /// already-revealed identity.
    pub open spec fn deck_entry_ok(self, c: Card) -> bool {
        if c.is_unknown {
            c.suit == -1 && c.value == -1 && !c.is_public
        } else {
            valid_id((c.suit, c.value)) && c.is_public && !self.nonpub().contains((c.suit, c.value))
        }
    }

    /// A hand slot is either the unknown sentinel or a valid identity; a
    /// public slot's identity is no longer in the non-public set, and a
    /// private slot's identity still is.
    pub open spec fn slot_ok(self, s: HandSlot) -> bool {
        if slot_unknown(s) {
            s == ((-1i8, -1i8, false))
        } else {
            valid_id(slot_id(s)) && (s.2 ==> !self.nonpub().contains(slot_id(s))) && (!s.2
                ==> self.nonpub().contains(slot_id(s)))
        }
    }

    /// Validity and visibility consistency of every container.
    pub open spec fn cards_ok(self) -> bool {
        &&& forall|i: int| 0 <= i < self.deck@.len() ==> self.deck_entry_ok(#[trigger] self.deck@[i])
        &&& forall|p: int, j: int|
            0 <= p < self.hands().len() && 0 <= j < self.hand(p).len()
                ==> self.slot_ok(#[trigger] self.hand(p)[j])
        &&& distinct_ids(self.nonpub())
        &&& forall|i: int| 0 <= i < self.nonpub().len() ==> valid_id(#[trigger] self.nonpub()[i])
        &&& forall|i: int|
            0 <= i < self.pool().len() ==> self.nonpub().contains(#[trigger] self.pool()[i])
        &&& forall|i: int|
            0 <= i < self.cards_to_defend@.len() ==> valid_id(#[trigger] self.cards_to_defend@[i])
                && !self.nonpub().contains(self.cards_to_defend@[i])
        &&& forall|i: int|
            0 <= i < self.pairs_finished@.len() ==> valid_id((#[trigger] self.pairs_finished@[i]).0)
                && valid_id(self.pairs_finished@[i].1)
                && !self.nonpub().contains(self.pairs_finished@[i].0)
                && !self.nonpub().contains(self.pairs_finished@[i].1)
        &&& forall|i: int|
            0 <= i < self.discard@.len() ==> valid_id(#[trigger] self.discard@[i])
                && !self.nonpub().contains(self.discard@[i])
    }

    /// The trump suit has been fixed.
    pub open spec fn trump_ok(self) -> bool {
        0 <= self.card_collection.trump_suit < 4
    }

    /// The bottom card, while it is still in the deck, is face up, defines
    /// the trump suit, and is never an ace.
    pub open spec fn bottom_ok(self) -> bool {
        self.deck@.len() > 0 ==> {
            &&& !self.deck@[0].is_unknown
            &&& self.deck@[0].value != ACE_VALUE
            &&& self.deck@[0].suit == self.card_collection.trump_suit
        }
    }

    /// Every stored seat number is in range.
    pub open spec fn seats_ok(self) -> bool {
        &&& (self.defender as int) < self.num_players as int
        &&& (self.main_attacker as int) < self.num_players as int
        &&& (self.player_to_play as int) < self.num_players as int
        &&& (self.loser as int) < self.num_players as int
        &&& (self.last_played_attacker as int) < self.num_players as int
        &&& forall|i: int|
            0 <= i < self.attackers@.len()
                ==> (#[trigger] self.attackers@[i] as int) < self.num_players as int
        &&& forall|i: int|
            0 <= i < self.draw_order@.len()
                ==> (#[trigger] self.draw_order@[i] as int) < self.num_players as int
    }

    /// Seat numbers and trick cursors are in range.
    pub open spec fn roles_ok(self) -> bool {
        &&& 2 <= self.num_players <= 6
        &&& self.hands().len() == self.num_players as int
        &&& self.seats_ok()
        &&& (!self.is_end_state ==> self.attackers@.len() >= 1
            && self.attackers@.len() <= self.num_players as int
            && (self.current_attacker as int) < self.attackers@.len()
            && (self.attacker_to_start_throwing as int) < self.attackers@.len()
            && (forall|i: int, j: int|
            0 <= i < j < self.attackers@.len() ==> self.attackers@[i] != self.attackers@[j])
            && (forall|i: int|
            0 <= i < self.attackers@.len() ==> #[trigger] self.attackers@[i] != self.defender))
    }

    /// The phase matches the player to move and the table.
    pub open spec fn phase_ok(self) -> bool {
        !self.is_end_state ==> {
            &&& (self.current_action == ActionKind::Attack
                || self.current_action == ActionKind::Defend
                || self.current_action == ActionKind::ThrowCards)
            &&& (self.current_action == ActionKind::Defend ==> self.cards_to_defend@.len() >= 1
                && self.player_to_play == self.defender)
            &&& (self.current_action != ActionKind::Defend
                ==> self.player_to_play == self.attackers@[self.current_attacker as int])
            &&& ((self.current_action == ActionKind::Defend || self.current_action
                == ActionKind::ThrowCards) ==> self.cards_to_defend@.len() <= self.hand(
                self.defender as int,
            ).len())
            &&& (self.current_action == ActionKind::Attack ==> self.cards_to_defend@.len() == 0)
        }
    }

    /// Each trump is recorded at most once per trick as having reflected.
    pub open spec fn reflected_ok(self) -> bool {
        &&& distinct_ids(self.reflected_trumps@)
        &&& forall|i: int|
            0 <= i < self.reflected_trumps@.len() ==> valid_id(#[trigger] self.reflected_trumps@[i])
                && self.reflected_trumps@[i].0 == self.card_collection.trump_suit
    }

    /// The state invariant: established by initialization and preserved by
    /// every engine operation.
    pub open spec fn wf(self) -> bool {
        &&& self.conserved()
        &&& self.counts_ok()
        &&& self.cards_ok()
        &&& self.trump_ok()
        &&& self.bottom_ok()
        &&& self.roles_ok()
        &&& self.phase_ok()
        &&& self.reflected_ok()
    }

    /// A state as `new` returns it: nothing dealt yet.
    pub open spec fn fresh_setup(self) -> bool {
        &&& 2 <= self.num_players <= 6
        &&& (self.main_attacker as int) < self.num_players as int
        &&& self.hands().len() == self.num_players as int
        &&& forall|p: int| 0 <= p < self.num_players as int ==> (#[trigger] self.hands()[p])@.len() == 0
        &&& self.deck@.len() == 36
        &&& forall|i: int| 0 <= i < 36 ==> self.deck@[i] == unknown_card()
        &&& self.pool() == all_ids()
        &&& self.nonpub() == all_ids()
        &&& self.card_collection.trump_suit == -1
        &&& !self.is_end_state
        &&& self.seats_ok()
        &&& self.pairs_finished@.len() == 0
        &&& self.cards_to_defend@.len() == 0
        &&& self.discard@.len() == 0
        &&& self.reflected_trumps@.len() == 0
    }

    /// A state after the bottom card was fixed: the trump suit is known, the
    /// rest of the deck is face down, the hands are still empty.
    pub open spec fn dealt_setup(self) -> bool {
        &&& 2 <= self.num_players <= 6
        &&& (self.main_attacker as int) < self.num_players as int
        &&& self.hands().len() == self.num_players as int
        &&& forall|p: int| 0 <= p < self.num_players as int ==> (#[trigger] self.hands()[p])@.len() == 0
        &&& self.deck@.len() == 36
        &&& forall|i: int| 1 <= i < 36 ==> (#[trigger] self.deck@[i]).is_unknown
        &&& self.conserved()
        &&& self.counts_ok()
        &&& self.cards_ok()
        &&& self.trump_ok()
        &&& self.bottom_ok()
        &&& !self.is_end_state
        &&& self.seats_ok()
        &&& self.pairs_finished@.len() == 0
        &&& self.cards_to_defend@.len() == 0
        &&& self.discard@.len() == 0
        &&& self.reflected_trumps@.len() == 0
    }

    /// The turn bookkeeping of `b` equals that of `a`: who plays, who
    /// defends, and where the trick cursors stand.
    pub open spec fn same_turn_fields(a: GameState, b: GameState) -> bool {
        &&& b.is_end_state == a.is_end_state
        &&& b.loser == a.loser
        &&& b.attackers == a.attackers
        &&& b.defender == a.defender
        &&& b.current_attacker == a.current_attacker
        &&& b.player_to_play == a.player_to_play
        &&& b.draw_order == a.draw_order
        &&& b.attacker_to_start_throwing == a.attacker_to_start_throwing
        &&& b.last_played_attacker == a.last_played_attacker
        &&& b.current_action == a.current_action
        &&& b.num_players == a.num_players
        &&& b.main_attacker == a.main_attacker
    }

    /// The table of `b` equals that of `a`: undefended cards, finished
    /// pairs, discard and the reflected trumps.
    pub open spec fn same_table_fields(a: GameState, b: GameState) -> bool {
        &&& b.cards_to_defend == a.cards_to_defend
        &&& b.pairs_finished == a.pairs_finished
        &&& b.discard == a.discard
        &&& b.reflected_trumps == a.reflected_trumps
    }

    /// The states agree on every field up to the values inside the vectors:
    /// what `duplicate` guarantees.
    pub open spec fn same_views(a: GameState, b: GameState) -> bool {
        &&& b.is_end_state == a.is_end_state
        &&& b.loser == a.loser
        &&& b.deck@ == a.deck@
        &&& b.attackers@ == a.attackers@
        &&& b.defender == a.defender
        &&& b.current_attacker == a.current_attacker
        &&& b.player_to_play == a.player_to_play
        &&& b.draw_order@ == a.draw_order@
        &&& b.attacker_to_start_throwing == a.attacker_to_start_throwing
        &&& b.last_played_attacker == a.last_played_attacker
        &&& b.reflected_trumps@ == a.reflected_trumps@
        &&& b.current_action == a.current_action
        &&& b.pairs_finished@ == a.pairs_finished@
        &&& b.cards_to_defend@ == a.cards_to_defend@
        &&& b.discard@ == a.discard@
        &&& b.num_players == a.num_players
        &&& b.main_attacker == a.main_attacker
        &&& b.card_collection.trump_suit == a.card_collection.trump_suit
        &&& b.pool() == a.pool()
        &&& b.nonpub() == a.nonpub()
        &&& b.hands().len() == a.hands().len()
        &&& forall|p: int| 0 <= p < a.hands().len() ==> a.hand(p) == b.hand(p)
    }

    /// A state that agrees with a well-formed state on every view is itself
    /// well-formed.
    pub proof fn lemma_same_views_wf(a: GameState, b: GameState)
        requires
            GameState::same_views(a, b),
            a.wf(),
        ensures
            b.wf(),
    {
        assert forall|p: int|
            0 <= p < a.hands().len() implies (#[trigger] a.hands()[p])@ == b.hands()[p]@ by {
            assert(a.hand(p) == b.hand(p));
        }
        crate::collection::lemma_hands_mset_congruence(a.hands(), b.hands());
        assert(b.placed_mset() =~= a.placed_mset());
        assert(b.conserved());
        assert(b.counts_ok());
        assert(b.cards_ok()) by {
            assert forall|i: int| 0 <= i < b.deck@.len() implies b.deck_entry_ok(
                #[trigger] b.deck@[i]) by {
                assert(a.deck_entry_ok(a.deck@[i]));
            }
            assert forall|p: int, j: int|
                0 <= p < b.hands().len() && 0 <= j < b.hand(p).len() implies b.slot_ok(
                #[trigger] b.hand(p)[j],
            ) by {
                assert(a.slot_ok(a.hand(p)[j]));
            }
            assert forall|i: int| 0 <= i < b.pool().len() implies b.nonpub().contains(
                #[trigger] b.pool()[i]) by {
                assert(a.nonpub().contains(a.pool()[i]));
            }
        }
        assert(b.phase_ok()) by {
            if !b.is_end_state && b.current_action == ActionKind::Defend {
                assert(b.hand(b.defender as int) == a.hand(a.defender as int));
            }
            if !b.is_end_state && b.current_action == ActionKind::ThrowCards {
                assert(b.hand(b.defender as int) == a.hand(a.defender as int));
            }
        }
    }

    /// A value-for-value copy of the state: every view agrees.
    pub fn duplicate(&self) -> (r: GameState)
        ensures
            GameState::same_views(*self, r),
    {
        let mut hands: Vec<Vec<HandSlot>> = Vec::new();
        let hn = self.card_collection.hands.len();
        let mut q: usize = 0;
        while q < hn
            invariant
                q <= hn,
                hn == self.hands().len(),
                hands@.len() == q as int,
                forall|p: int| 0 <= p < q as int ==> (#[trigger] hands@[p])@ == self.hand(p),
            decreases hn - q,
        {
            hands.push(copy_vec(&self.card_collection.hands[q]));
            q = q + 1;
        }
        let r = GameState {
            is_end_state: self.is_end_state,
            loser: self.loser,
            card_collection: CardCollection {
                unknown: copy_vec(&self.card_collection.unknown),
                non_public: copy_vec(&self.card_collection.non_public),
                hands,
                trump_suit: self.card_collection.trump_suit,
            },
            deck: copy_vec(&self.deck),
            attackers: copy_vec(&self.attackers),
            defender: self.defender,
            current_attacker: self.current_attacker,
            player_to_play: self.player_to_play,
            draw_order: copy_vec(&self.draw_order),
            attacker_to_start_throwing: self.attacker_to_start_throwing,
            last_played_attacker: self.last_played_attacker,
            reflected_trumps: copy_vec(&self.reflected_trumps),
            current_action: self.current_action,
            pairs_finished: copy_vec(&self.pairs_finished),
            cards_to_defend: copy_vec(&self.cards_to_defend),
            discard: copy_vec(&self.discard),
            num_players: self.num_players,
            main_attacker: self.main_attacker,
        };
        r
    }

    /// A fresh game for `num_players` seats, with `main_attacker` to open
    /// the first trick. Nothing is dealt yet.
    pub fn new(num_players: u8, main_attacker: u8) -> (s: GameState)
        requires
            2 <= num_players <= 6,
            main_attacker < num_players,
        ensures
            s.fresh_setup(),
            s.num_players == num_players,
            s.main_attacker == main_attacker,
    {
        let mut cc: CardCollection = Default::default();
        let mut p: u8 = 0;
        while p < num_players
            invariant
                p <= num_players,
                cc.hands@.len() == p as int,
                forall|q: int| 0 <= q < p as int ==> (#[trigger] cc.hands@[q])@.len() == 0,
                cc.unknown@ == all_ids(),
                cc.non_public@ == all_ids(),
                cc.trump_suit == -1,
            decreases num_players - p,
        {
            cc.hands.push(Vec::new());
            p = p + 1;
        }
        let mut deck: Vec<Card> = Vec::new();
        let mut i: usize = 0;
        while i < 36
            invariant
                i <= 36,
                deck@.len() == i as int,
                forall|j: int| 0 <= j < i as int ==> deck@[j] == unknown_card(),
            decreases 36 - i,
        {
            deck.push(Default::default());
            i = i + 1;
        }
        GameState {
            is_end_state: false,
            loser: 0,
            card_collection: cc,
            deck,
            attackers: Vec::new(),
            defender: 0,
            current_attacker: 0,
            player_to_play: 0,
            draw_order: Vec::new(),
            attacker_to_start_throwing: 0,
            last_played_attacker: 0,
            reflected_trumps: Vec::new(),
            current_action: ActionKind::Attack,
            pairs_finished: Vec::new(),
            cards_to_defend: Vec::new(),
            discard: Vec::new(),
            num_players,
            main_attacker,
        }
    }

    /// Fix the bottom card of a fresh deal to the pool identity at `idx`.
    /// An ace is refused (the caller redeals): the state is then unchanged.
    /// Otherwise the card becomes public at deck position 0, its suit becomes
    /// the trump suit, and every deck entry learns the trump.
    pub fn set_bottom(&mut self, idx: usize) -> (ok: bool)
        requires
            old(self).fresh_setup(),
            idx < old(self).pool().len(),
        ensures
            ok == (old(self).pool()[idx as int].1 != ACE_VALUE),
            !ok ==> *final(self) == *old(self),
            ok ==> {
                let id = old(self).pool()[idx as int];
                &&& final(self).dealt_setup()
                &&& final(self).card_collection.trump_suit == id.0
                &&& final(self).deck@[0] == (Card {
                    suit: id.0,
                    value: id.1,
                    trump_suit: id.0,
                    is_public: true,
                    is_private: false,
                    is_unknown: false,
                })
                &&& forall|i: int| 1 <= i < 36 ==> final(self).deck@[i] == (Card {
                    suit: -1i8,
                    value: -1i8,
                    trump_suit: id.0,
                    is_public: false,
                    is_private: false,
                    is_unknown: true,
                })
                &&& final(self).num_players == old(self).num_players
                &&& final(self).main_attacker == old(self).main_attacker
                &&& final(self).pool().len() == 35
            },
    {
        let id = self.card_collection.unknown[idx];
        proof {
            lemma_all_ids_valid();
            lemma_all_ids_distinct();
        }
        if id.1 == ACE_VALUE {
            return false;
        }
        let found_pool = remove_id(&mut self.card_collection.unknown, id);
        let found_np = remove_id(&mut self.card_collection.non_public, id);
        proof {
            assert(old(self).pool().contains(id));
            assert(old(self).nonpub().contains(id));
        }
        self.card_collection.trump_suit = id.0;
        let ghost mid = *self;
        let bottom = Card {
            suit: id.0,
            value: id.1,
            trump_suit: id.0,
            is_public: true,
            is_private: false,
            is_unknown: false,
        };
        let back = Card {
            suit: -1,
            value: -1,
            trump_suit: id.0,
            is_public: false,
            is_private: false,
            is_unknown: true,
        };
        proof {
            assert(forall|j: int| 0 <= j < self.deck@.len()
                ==> (#[trigger] self.deck@[j]).is_unknown);
            lemma_deck_all_unknown(self.deck@);
        }
        let mut i: usize = 0;
        while i < 36
            invariant
                i <= 36,
                self.deck@.len() == 36,
                forall|j: int| i as int <= j < 36 ==> self.deck@[j] == unknown_card(),
                i >= 1 ==> self.deck@[0] == bottom,
                forall|j: int| 1 <= j < i as int ==> self.deck@[j] == back,
                deck_mset(self.deck@) =~= (if i >= 1 {
                    Multiset::empty().insert(id)
                } else {
                    Multiset::<CardId>::empty()
                }),
                deck_unknowns(self.deck@) == if i >= 1 { 35nat } else { 36nat },
                self.card_collection == mid.card_collection,
                GameState::same_turn_fields(*old(self), *self),
                GameState::same_table_fields(*old(self), *self),
            decreases 36 - i,
        {
            let ghost pre = self.deck@;
            if i == 0 {
                self.deck[0] = bottom;
            } else {
                self.deck[i] = back;
            }
            proof {
                let c = if i == 0 { bottom } else { back };
                lemma_deck_mset_update(pre, i as int, c);
                lemma_deck_all_unknown_prefix(pre, i as int);
                assert(card_mset(pre[i as int]) =~= Multiset::<CardId>::empty());
                assert(deck_mset(self.deck@).add(card_mset(pre[i as int])) =~= deck_mset(
                    pre).add(card_mset(c)));
                assert(deck_mset(self.deck@) =~= deck_mset(pre).add(card_mset(c)));
                if i == 0 {
                    assert(card_mset(c) =~= Multiset::empty().insert(id));
                    assert(deck_mset(self.deck@) =~= Multiset::empty().insert(id));
                } else {
                    assert(card_mset(c) =~= Multiset::<CardId>::empty());
                    assert(deck_mset(self.deck@) =~= deck_mset(pre));
                }
            }
            i = i + 1;
        }
        proof {
            let opool = old(self).pool();
            let onp = old(self).nonpub();
            assert(distinct_ids(opool));
            assert(distinct_ids(onp));
            lemma_hands_all_empty(self.hands());
            // conservation: the bottom identity moved from the pool to the deck
            assert(self.placed_mset() =~= full_mset()) by {
                assert(ids_mset(self.pool()).insert(id) =~= ids_mset(opool));
                assert(old(self).placed_mset() == full_mset());
                lemma_deck_all_unknown(old(self).deck@);
                lemma_hands_all_empty(old(self).hands());
            }
            assert(self.counts_ok()) by {
                lemma_hands_all_empty(self.hands());
            }
            assert(self.cards_ok()) by {
                assert(forall|x: CardId| self.nonpub().contains(x) ==> onp.contains(x));
                assert(forall|x: CardId| self.pool().contains(x)
                    ==> opool.contains(x) && x != id);
                assert(forall|i2: int| 0 <= i2 < self.pool().len()
                    ==> self.nonpub().contains(#[trigger] self.pool()[i2])) by {
                    assert(forall|i2: int| 0 <= i2 < self.pool().len()
                        ==> self.pool().contains(#[trigger] self.pool()[i2]));
                    assert(forall|x: CardId| opool.contains(x) && x != id
                        ==> self.nonpub().contains(x));
                }
                assert(forall|i2: int| 0 <= i2 < self.nonpub().len()
                    ==> valid_id(#[trigger] self.nonpub()[i2])) by {
                    assert(forall|i2: int| 0 <= i2 < self.nonpub().len()
                        ==> self.nonpub().contains(#[trigger] self.nonpub()[i2]));
                    assert(forall|x: CardId| self.nonpub().contains(x) ==> onp.contains(x));
                    assert(forall|x: CardId| onp.contains(x) ==> valid_id(x)) by {
                        assert(forall|j: int| 0 <= j < onp.len() ==> valid_id(#[trigger] onp[j]));
                    }
                }
                assert(!self.nonpub().contains(id));
            }
            assert(self.dealt_setup());
        }
        true
    }
}

/// The hand slot a drawn deck entry becomes: a face-down entry turns into an
/// unknown slot, a revealed entry into a public concrete slot.
pub open spec fn deck_to_slot(c: Card) -> HandSlot {
    if c.is_unknown {
        (-1i8, -1i8, false)
    } else {
        (c.suit, c.value, true)
    }
}

impl GameState {
    /// The seat `k` places left of the main attacker.
    pub open spec fn seat_at(self, k: int) -> u8 {
        (((self.main_attacker as int) + k) % (self.num_players as int)) as u8
    }

    /// A seat is still in the game while it has cards in hand or can draw.
    pub open spec fn alive(self, p: int) -> bool {
        self.deck@.len() > 0 || self.hand(p).len() > 0
    }

    /// The alive seats among the first `k` seats left of the main attacker,
    /// in rotation order.
    pub open spec fn roster_prefix(self, k: int) -> Seq<u8>
        decreases k,
    {
        if k <= 0 {
            Seq::empty()
        } else {
            let r = self.roster_prefix(k - 1);
            if self.alive(self.seat_at(k - 1) as int) {
                r.push(self.seat_at(k - 1))
            } else {
                r
            }
        }
    }

    /// All alive seats, starting at the main attacker, in rotation order.
    /// Position 0 opens the trick; position 1, if any, defends.
    pub open spec fn roster(self) -> Seq<u8> {
        self.roster_prefix(self.num_players as int)
    }

    /// Refill one hand to six cards from the top of the deck: face-down
    /// draws become unknown slots, revealed draws become public slots.
    pub fn fill_hand(&mut self, player_idx: u8)
        requires
            (player_idx as int) < old(self).hands().len(),
            old(self).conserved(),
            old(self).counts_ok(),
            old(self).cards_ok(),
        ensures
            final(self).conserved(),
            final(self).counts_ok(),
            final(self).cards_ok(),
            final(self).hands().len() == old(self).hands().len(),
            forall|q: int|
                0 <= q < old(self).hands().len() && q != player_idx as int
                    ==> final(self).hands()[q] == old(self).hands()[q],
            final(self).deck@.len() <= old(self).deck@.len(),
            final(self).deck@ == old(self).deck@.subrange(0, final(self).deck@.len() as int),
            old(self).hand(player_idx as int).len() <= final(self).hand(player_idx as int).len(),
            forall|j: int|
                0 <= j < old(self).hand(player_idx as int).len()
                    ==> final(self).hand(player_idx as int)[j]
                    == old(self).hand(player_idx as int)[j],
            forall|j: int|
                old(self).hand(player_idx as int).len() <= j
                    < final(self).hand(player_idx as int).len()
                    ==> final(self).hand(player_idx as int)[j] == deck_to_slot(
                    old(self).deck@[old(self).deck@.len() - 1 - (j - old(self).hand(
                        player_idx as int,
                    ).len())]),
            final(self).hand(player_idx as int).len() as int == if old(self).hand(
                player_idx as int,
            ).len() >= 6 {
                old(self).hand(player_idx as int).len() as int
            } else if old(self).hand(player_idx as int).len() + old(self).deck@.len() >= 6 {
                6int
            } else {
                (old(self).hand(player_idx as int).len() + old(self).deck@.len()) as int
            },
            final(self).deck@.len() == old(self).deck@.len() - (final(self).hand(
                player_idx as int,
            ).len() - old(self).hand(player_idx as int).len()),
            final(self).pool() == old(self).pool(),
            final(self).nonpub() == old(self).nonpub(),
            final(self).card_collection.trump_suit == old(self).card_collection.trump_suit,
            GameState::same_turn_fields(*old(self), *final(self)),
            GameState::same_table_fields(*old(self), *final(self)),
    {
        let p = player_idx as usize;
        let ghost oldh = self.hand(player_idx as int);
        let ghost oldd = self.deck@;
        let mut hand = copy_vec(&self.card_collection.hands[p]);
        proof {
            assert(hand@ == oldh);
        }
        while hand.len() < 6 && self.deck.len() > 0
            invariant
                self.card_collection == old(self).card_collection,
                GameState::same_turn_fields(*old(self), *self),
                GameState::same_table_fields(*old(self), *self),
                self.deck@.len() <= oldd.len(),
                self.deck@ == oldd.subrange(0, self.deck@.len() as int),
                hand@.len() >= oldh.len(),
                forall|j: int| 0 <= j < oldh.len() ==> hand@[j] == oldh[j],
                forall|j: int|
                    oldh.len() <= j < hand@.len() ==> hand@[j] == deck_to_slot(
                        oldd[oldd.len() - 1 - (j - oldh.len())]),
                hand@.len() - oldh.len() == oldd.len() - self.deck@.len(),
                oldh.len() < 6 ==> hand@.len() <= 6,
                oldh.len() >= 6 ==> hand@ == oldh,
                deck_mset(self.deck@).add(hand_mset(hand@)) =~= deck_mset(oldd).add(
                    hand_mset(oldh)),
                deck_unknowns(self.deck@) + hand_unknowns(hand@) == deck_unknowns(oldd)
                    + hand_unknowns(oldh),
                forall|j: int| 0 <= j < hand@.len() ==> old(self).slot_ok(#[trigger] hand@[j]),
            decreases self.deck@.len(),
        {
            let ghost predeck = self.deck@;
            let ghost prehand = hand@;
            let copt = self.deck.pop();
            let c = copt.unwrap();
            let slot: HandSlot = if !c.is_unknown {
                (c.suit, c.value, true)
            } else {
                (-1i8, -1i8, false)
            };
            hand.push(slot);
            proof {
                assert(self.deck@ =~= predeck.drop_last());
                assert(c == predeck.last());
                assert(deck_mset(predeck) == deck_mset(predeck.drop_last()).add(card_mset(c)));
                assert(deck_unknowns(predeck) == deck_unknowns(predeck.drop_last()) + (
                if c.is_unknown {
                    1nat
                } else {
                    0nat
                }));
                lemma_hand_mset_push(prehand, slot);
                assert(slot_mset(slot) =~= card_mset(c));
                assert(deck_mset(self.deck@).add(hand_mset(hand@)) =~= deck_mset(oldd).add(
                    hand_mset(oldh)));
                // the drawn entry was a well-formed deck entry, so the new
                // slot is a well-formed hand slot
                let di = predeck.len() - 1;
                assert(predeck[di] == oldd.subrange(0, predeck.len() as int)[di]);
                assert(old(self).deck_entry_ok(c));
                assert(old(self).slot_ok(slot));
                assert(forall|j: int|
                    oldh.len() <= j < hand@.len() ==> hand@[j] == deck_to_slot(
                        oldd[oldd.len() - 1 - (j - oldh.len())]));
            }
        }
        let ghost newh = hand@;
        let ghost prehands = self.hands();
        self.card_collection.hands[p] = hand;
        proof {
            assert(self.hands() == prehands.update(player_idx as int, self.hands()[
                player_idx as int]));
            assert(self.hands()[player_idx as int]@ == newh);
            lemma_hands_mset_update(prehands, player_idx as int, self.hands()[player_idx as int]);
            assert(self.placed_mset() =~= full_mset()) by {
                assert(hands_mset(self.hands()).add(hand_mset(oldh)) =~= hands_mset(prehands).add(
                    hand_mset(newh)));
                assert forall|v: CardId|
                    self.placed_mset().count(v) == old(self).placed_mset().count(v) by {
                    assert(deck_mset(self.deck@).add(hand_mset(newh)).count(v) == deck_mset(
                        oldd).add(hand_mset(oldh)).count(v));
                    assert(hands_mset(self.hands()).add(hand_mset(oldh)).count(v) == hands_mset(
                        prehands).add(hand_mset(newh)).count(v));
                }
                assert(self.placed_mset() =~= old(self).placed_mset());
                assert(old(self).placed_mset() == full_mset());
            }
            assert(self.counts_ok()) by {
                assert(hands_unknowns(self.hands()) + hand_unknowns(oldh) == hands_unknowns(
                    prehands) + hand_unknowns(newh));
            }
            assert(self.cards_ok()) by {
                assert(forall|i: int|
                    0 <= i < self.deck@.len() ==> self.deck@[i] == oldd.subrange(
                        0,
                        self.deck@.len() as int,
                    )[i] && self.deck@[i] == oldd[i]);
                assert forall|q: int, j: int|
                    0 <= q < self.hands().len() && 0 <= j < self.hand(q).len() implies self.slot_ok(
                    #[trigger] self.hand(q)[j],
                ) by {
                    if q == player_idx as int {
                        assert(old(self).slot_ok(newh[j]));
                    } else {
                        assert(self.hand(q) == old(self).hand(q));
                        assert(old(self).slot_ok(old(self).hand(q)[j]));
                    }
                }
            }
        }
    }
}

impl GameState {
    /// Every roster entry is an alive seat in range, and there are at most
    /// as many entries as seats inspected.
    pub proof fn lemma_roster_props(self, k: int)
        requires
            0 <= k,
            2 <= self.num_players <= 6,
        ensures
            self.roster_prefix(k).len() <= k,
            forall|i: int|
                0 <= i < self.roster_prefix(k).len()
                    ==> (#[trigger] self.roster_prefix(k)[i] as int) < self.num_players as int
                    && self.alive(self.roster_prefix(k)[i] as int),
        decreases k,
    {
        if k > 0 {
            self.lemma_roster_props(k - 1);
        }
    }

    /// Distinct rotation offsets give distinct seats.
    pub proof fn lemma_seat_at_distinct(self, j1: int, j2: int)
        requires
            0 <= j1 < j2 < self.num_players as int,
            2 <= self.num_players <= 6,
            (self.main_attacker as int) < self.num_players as int,
            0 <= self.main_attacker as int,
        ensures
            self.seat_at(j1) != self.seat_at(j2),
    {
        let num = self.num_players as int;
        let a = self.main_attacker as int + j1;
        let b = self.main_attacker as int + j2;
        vstd::arithmetic::div_mod::lemma_fundamental_div_mod(a, num);
        vstd::arithmetic::div_mod::lemma_fundamental_div_mod(b, num);
        vstd::arithmetic::div_mod::lemma_mod_bound(a, num);
        vstd::arithmetic::div_mod::lemma_mod_bound(b, num);
        if a % num == b % num {
            let dq = b / num - a / num;
            assert(b - a == num * dq) by (nonlinear_arith)
                requires
                    a == num * (a / num) + a % num,
                    b == num * (b / num) + b % num,
                    a % num == b % num,
                    dq == b / num - a / num,
            ;
            assert(false) by (nonlinear_arith)
                requires
                    b - a == num * dq,
                    0 < b - a < num,
            ;
        }
    }

    /// Every roster seat arises from a unique rotation offset, so the roster
    /// has no repeated seats.
    pub proof fn lemma_roster_seats(self, k: int)
        requires
            0 <= k <= self.num_players as int,
            2 <= self.num_players <= 6,
            (self.main_attacker as int) < self.num_players as int,
        ensures
            forall|i: int|
                0 <= i < self.roster_prefix(k).len() ==> exists|j: int|
                    0 <= j < k && #[trigger] self.roster_prefix(k)[i] == self.seat_at(j),
            forall|i1: int, i2: int|
                0 <= i1 < i2 < self.roster_prefix(k).len() ==> self.roster_prefix(k)[i1]
                    != self.roster_prefix(k)[i2],
        decreases k,
    {
        if k > 0 {
            self.lemma_roster_seats(k - 1);
            let r = self.roster_prefix(k - 1);
            let rn = self.roster_prefix(k);
            if self.alive(self.seat_at(k - 1) as int) {
                assert(rn == r.push(self.seat_at(k - 1)));
                assert forall|i: int| 0 <= i < r.len() implies r[i] != self.seat_at(k - 1) by {
                    let j = choose|j: int| 0 <= j < k - 1 && #[trigger] r[i] == self.seat_at(j);
                    self.lemma_seat_at_distinct(j, k - 1);
                }
                assert forall|i: int| 0 <= i < rn.len() implies exists|j: int|
                    0 <= j < k && #[trigger] rn[i] == self.seat_at(j) by {
                    if i < r.len() {
                        let j = choose|j: int| 0 <= j < k - 1 && #[trigger] r[i] == self.seat_at(j);
                        assert(rn[i] == self.seat_at(j));
                    } else {
                        assert(rn[i] == self.seat_at(k - 1));
                    }
                }
            } else {
                assert(rn == r);
                assert forall|i: int| 0 <= i < rn.len() implies exists|j: int|
                    0 <= j < k && #[trigger] rn[i] == self.seat_at(j) by {
                    let j = choose|j: int| 0 <= j < k - 1 && #[trigger] r[i] == self.seat_at(j);
                    assert(rn[i] == self.seat_at(j));
                }
            }
        }
    }

    /// While every seat is alive, the roster is the full rotation.
    pub proof fn lemma_roster_all_alive(self, k: int)
        requires
            0 <= k <= self.num_players as int,
            2 <= self.num_players <= 6,
            forall|p: int| 0 <= p < self.num_players as int ==> self.alive(p),
        ensures
            self.roster_prefix(k).len() == k,
            forall|i: int| 0 <= i < k ==> self.roster_prefix(k)[i] == self.seat_at(i),
        decreases k,
    {
        if k > 0 {
            self.lemma_roster_all_alive(k - 1);
        }
    }

    /// Start a new trick: rebuild the attacker list from the alive seats in
    /// rotation order from the main attacker, make the second alive seat the
    /// defender, and clear the table. With fewer than two alive seats the
    /// game ends instead: with none, the last defender lost; with one, that
    /// seat lost.
    pub fn new_trick(&mut self)
        requires
            old(self).conserved(),
            old(self).counts_ok(),
            old(self).cards_ok(),
            old(self).trump_ok(),
            old(self).bottom_ok(),
            old(self).reflected_ok(),
            old(self).seats_ok(),
            !old(self).is_end_state,
            2 <= old(self).num_players <= 6,
            old(self).hands().len() == old(self).num_players as int,
            old(self).pairs_finished@.len() == 0,
            old(self).cards_to_defend@.len() == 0,
        ensures
            final(self).wf(),
            final(self).deck == old(self).deck,
            final(self).card_collection == old(self).card_collection,
            final(self).discard == old(self).discard,
            final(self).num_players == old(self).num_players,
            final(self).main_attacker == old(self).main_attacker,
            final(self).current_action == ActionKind::Attack,
            final(self).pairs_finished@.len() == 0,
            final(self).cards_to_defend@.len() == 0,
            ({
                let r = old(self).roster();
                &&& (r.len() == 0 ==> final(self).is_end_state && final(self).loser == old(
                    self,
                ).defender)
                &&& (r.len() == 1 ==> final(self).is_end_state && final(self).loser == r[0])
                &&& (r.len() >= 2 ==> !final(self).is_end_state && final(self).defender == r[1]
                    && final(self).attackers@ == r.remove(1) && final(self).current_attacker == 0
                    && final(self).player_to_play == r[0] && final(self).draw_order@ == r.remove(
                    1,
                ).push(r[1]) && final(self).reflected_trumps@.len() == 0
                    && final(self).attacker_to_start_throwing == 0
                    && final(self).last_played_attacker == 0)
            }),
    {
        let num = self.num_players;
        let mut rote: Vec<u8> = Vec::new();
        let mut k: u8 = 0;
        while k < num
            invariant
                k <= num,
                *self == *old(self),
                rote@ == self.roster_prefix(k as int),
            decreases num - k,
        {
            let p = ((self.main_attacker as usize + k as usize) % (num as usize)) as u8;
            proof {
                assert(p == self.seat_at(k as int));
            }
            if self.deck.len() > 0 || self.card_collection.hands[p as usize].len() > 0 {
                rote.push(p);
            }
            k = k + 1;
        }
        proof {
            self.lemma_roster_props(num as int);
            self.lemma_roster_seats(num as int);
            assert(rote@ == old(self).roster());
        }
        let ghost r = rote@;
        if rote.len() == 0 {
            self.is_end_state = true;
            self.loser = self.defender;
            self.attackers = rote;
        } else if rote.len() == 1 {
            self.is_end_state = true;
            self.loser = rote[0];
            self.attackers = rote;
        } else {
            let new_defender = rote.remove(1);
            self.defender = new_defender;
            self.current_attacker = 0;
            self.player_to_play = rote[0];
            self.attackers = rote;
            let mut dro = copy_vec(&self.attackers);
            dro.push(new_defender);
            self.draw_order = dro;
            self.attacker_to_start_throwing = 0;
            self.last_played_attacker = 0;
            self.reflected_trumps = Vec::new();
        }
        self.current_action = ActionKind::Attack;
        self.pairs_finished = Vec::new();
        self.cards_to_defend = Vec::new();
        proof {
            assert(self.placed_mset() =~= old(self).placed_mset());
            assert(self.conserved());
            assert(self.counts_ok());
            assert(forall|i: int|
                0 <= i < self.deck@.len() ==> self.deck_entry_ok(#[trigger] self.deck@[i])) by {
                assert(forall|i: int|
                    0 <= i < self.deck@.len() ==> old(self).deck_entry_ok(
                        #[trigger] self.deck@[i]));
            }
            assert forall|p: int, j: int|
                0 <= p < self.hands().len() && 0 <= j < self.hand(p).len() implies self.slot_ok(
                #[trigger] self.hand(p)[j],
            ) by {
                assert(self.hand(p) == old(self).hand(p));
                assert(old(self).slot_ok(old(self).hand(p)[j]));
            }
            assert(self.pairs_finished@.len() == 0);
            assert(self.cards_to_defend@.len() == 0);
            assert(self.cards_ok());
            assert(self.trump_ok());
            assert(self.bottom_ok());
            assert(self.roles_ok());
            assert(self.phase_ok());
            assert(self.reflected_ok());
        }
    }

    /// Deal six cards to every seat from a dealt deck, then open the first
    /// trick. The main attacker plays first; the next seat defends.
    pub fn start_game(&mut self)
        requires
            old(self).dealt_setup(),
        ensures
            final(self).wf(),
            !final(self).is_end_state,
            final(self).current_action == ActionKind::Attack,
            final(self).num_players == old(self).num_players,
            final(self).main_attacker == old(self).main_attacker,
            final(self).player_to_play == old(self).main_attacker,
            final(self).defender as int == (old(self).main_attacker as int + 1) % (old(
                self,
            ).num_players as int),
            forall|p: int|
                0 <= p < old(self).num_players as int ==> final(self).hand(p).len() == 6,
            final(self).deck@.len() == 36 - 6 * (old(self).num_players as int),
            final(self).deck@ == old(self).deck@.subrange(
                0,
                36 - 6 * (old(self).num_players as int),
            ),
            final(self).card_collection.trump_suit == old(self).card_collection.trump_suit,
            final(self).pool() == old(self).pool(),
            final(self).nonpub() == old(self).nonpub(),
            final(self).pairs_finished@.len() == 0,
            final(self).cards_to_defend@.len() == 0,
            final(self).discard@.len() == 0,
    {
        let num = self.num_players;
        let mut p: u8 = 0;
        while p < num
            invariant
                p <= num,
                self.num_players == num,
                self.conserved(),
                self.counts_ok(),
                self.cards_ok(),
                self.hands().len() == num as int,
                forall|q: int| 0 <= q < p as int ==> (#[trigger] self.hands()[q])@.len() == 6,
                forall|q: int|
                    p as int <= q < num as int ==> (#[trigger] self.hands()[q])@.len() == 0,
                self.deck@.len() == 36 - 6 * (p as int),
                self.deck@ == old(self).deck@.subrange(0, 36 - 6 * (p as int)),
                self.pool() == old(self).pool(),
                self.nonpub() == old(self).nonpub(),
                self.card_collection.trump_suit == old(self).card_collection.trump_suit,
                GameState::same_turn_fields(*old(self), *self),
                GameState::same_table_fields(*old(self), *self),
            decreases num - p,
        {
            let ghost pre = *self;
            self.fill_hand(p);
            proof {
                assert(self.hand(p as int).len() == 6);
                assert(self.deck@ =~= old(self).deck@.subrange(0, 36 - 6 * (p as int + 1)));
            }
            p = p + 1;
        }
        proof {
            assert(forall|q: int| 0 <= q < num as int ==> self.alive(q));
            self.lemma_roster_all_alive(num as int);
            assert(self.roster().len() == num as int);
            assert(self.roster()[0] == self.seat_at(0));
            let ghost ma = self.main_attacker as int;
            let ghost np = self.num_players as int;
            assert(ma % np == ma) by (nonlinear_arith)
                requires
                    0 <= ma < np,
            ;
            assert(self.seat_at(0) == self.main_attacker);
            assert(self.roster()[1] == self.seat_at(1));
        }
        self.new_trick();
    }

    /// Initialize a full game with the engine shuffling: draw a random
    /// bottom card, redealing while it is an ace, then deal and start. The
    /// bottom card of the resulting state is never an ace.
    pub fn initialize(&mut self, rng: &mut StdRng)
        requires
            old(self).fresh_setup(),
        ensures
            final(self).wf(),
            !final(self).is_end_state,
            final(self).current_action == ActionKind::Attack,
            final(self).num_players == old(self).num_players,
            final(self).main_attacker == old(self).main_attacker,
            final(self).player_to_play == old(self).main_attacker,
            forall|p: int|
                0 <= p < old(self).num_players as int ==> final(self).hand(p).len() == 6,
            final(self).deck@.len() == 36 - 6 * (old(self).num_players as int),
            final(self).deck@.len() > 0 ==> final(self).deck@[0].value != ACE_VALUE,
    {
        let mut t: usize = 0;
        while t < 100
            invariant
                t <= 100,
                *self == *old(self),
            decreases 100 - t,
        {
            let idx = rng_below(rng, 36);
            if self.set_bottom(idx) {
                self.start_game();
                return;
            }
            t = t + 1;
        }
        // Random draws kept hitting aces; fall back to the first identity of
        // the pool, which is never an ace.
        proof {
            assert(all_ids()[0] == (0i8, 0i8));
        }
        let ok = self.set_bottom(0);
        assert(ok);
        self.start_game();
    }

    /// Whether the game has ended.
    pub fn is_terminal(&self) -> (r: bool)
        ensures
            r == self.is_end_state,
    {
        self.is_end_state
    }

    /// The losing seat; meaningful once the game has ended.
    pub fn loser_seat(&self) -> (r: u8)
        ensures
            r == self.loser,
    {
        self.loser
    }

    /// The trump suit fixed at deal time.
    pub fn trump(&self) -> (r: i8)
        ensures
            r == self.card_collection.trump_suit,
    {
        self.card_collection.trump_suit
    }
}

/// A deck whose entries are all still face down accounts for nothing
/// concrete: as many unknowns as entries.
pub proof fn lemma_deck_all_unknown(d: Seq<Card>)
    requires
        forall|i: int| 0 <= i < d.len() ==> (#[trigger] d[i]).is_unknown,
    ensures
        deck_mset(d) =~= Multiset::<CardId>::empty(),
        deck_unknowns(d) == d.len(),
    decreases d.len(),
{
    if d.len() > 0 {
        assert(forall|i: int| 0 <= i < d.drop_last().len() ==> (#[trigger] d.drop_last()[i]).is_unknown);
        lemma_deck_all_unknown(d.drop_last());
    }
}

/// As `lemma_deck_all_unknown`, but only the first `k` entries are known to
/// be face down; used while the trump suit is being stamped on the deck.
proof fn lemma_deck_all_unknown_prefix(d: Seq<Card>, k: int)
    requires
        0 <= k < d.len(),
        forall|j: int| k <= j < d.len() ==> d[j] == unknown_card(),
    ensures
        d[k].is_unknown,
{
}

/// Empty hands account for nothing.
pub proof fn lemma_hands_all_empty(hs: Seq<Vec<HandSlot>>)
    requires
        forall|p: int| 0 <= p < hs.len() ==> (#[trigger] hs[p])@.len() == 0,
    ensures
        hands_mset(hs) =~= Multiset::<CardId>::empty(),
        hands_unknowns(hs) == 0,
    decreases hs.len(),
{
    if hs.len() > 0 {
        assert(forall|p: int| 0 <= p < hs.drop_last().len() ==> (#[trigger] hs.drop_last()[p])@.len() == 0);
        lemma_hands_all_empty(hs.drop_last());
        assert(hand_mset(hs.last()@) =~= Multiset::<CardId>::empty());
    }
}

} // verus!
