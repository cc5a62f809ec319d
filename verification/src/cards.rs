//! Value types of the game: cards, card identities and actions.
//!
//! A card identity is a `(suit, value)` pair with suit in `0..4` and value in
//! `0..9` (value 8 is the ace). The pair `(-1, -1)` is the sentinel for "the
//! identity of this card is hidden from the viewer".

use vstd::prelude::*;

verus! {

/// Number of suits in the deck.
pub const NUM_SUITS: i8 = 4;

/// Number of values per suit; value 8 (the highest) is the ace.
pub const NUM_VALUES: i8 = 9;

/// Value of the ace, the highest card of each suit.
pub const ACE_VALUE: i8 = 8;

/// A card identity: `(suit, value)`.
pub type CardId = (i8, i8);

/// An identity is valid when both coordinates lie in the deck's ranges.
pub open spec fn valid_id(id: CardId) -> bool {
    0 <= id.0 < NUM_SUITS && 0 <= id.1 < NUM_VALUES
}

/// Defending card `c` beats attacking card `d`: same suit and higher value,
/// or any trump over a non-trump.
pub open spec fn spec_beats(c: CardId, d: CardId, trump_suit: i8) -> bool {
    (c.0 == d.0 && c.1 > d.1) || (c.0 == trump_suit && d.0 != trump_suit)
}

/// Runtime check of `spec_beats`.
pub fn beats(c: CardId, d: CardId, trump_suit: i8) -> (r: bool)
    ensures
        r == spec_beats(c, d, trump_suit),
{
    (c.0 == d.0 && c.1 > d.1) || (c.0 == trump_suit && d.0 != trump_suit)
}

/// Identity equality as an executable check.
pub fn id_eq(a: CardId, b: CardId) -> (r: bool)
    ensures
        r == (a == b),
{
    a.0 == b.0 && a.1 == b.1
}

/// A deck entry. An entry either carries a concrete identity or is still
/// face-down and unknown (`is_unknown`, with the `(-1, -1)` sentinel).
#[derive(Clone, Copy, PartialEq, Eq, Structural, Debug)]
pub struct Card {
    pub suit: i8,
    pub value: i8,
    pub trump_suit: i8,
    pub is_public: bool,
    pub is_private: bool,
    pub is_unknown: bool,
}

/// The face-down card of unknown identity.
pub open spec fn unknown_card() -> Card {
    Card {
        suit: -1i8,
        value: -1i8,
        trump_suit: -1i8,
        is_public: false,
        is_private: false,
        is_unknown: true,
    }
}

impl Default for Card {
    /// A face-down card of unknown identity.
    fn default() -> (c: Card)
        ensures
            c == unknown_card(),
    {
        Card { suit: -1, value: -1, trump_suit: -1, is_public: false, is_private: false, is_unknown: true }
    }
}

/// A hand slot: a concrete identity with a publicity flag, or the sentinel
/// `(-1, -1, false)` for a card whose identity the viewer cannot see.
pub type HandSlot = (i8, i8, bool);

/// Whether a hand slot is the unknown-identity sentinel.
pub open spec fn slot_unknown(s: HandSlot) -> bool {
    s.0 == -1
}

/// The identity held by a concrete hand slot.
pub open spec fn slot_id(s: HandSlot) -> CardId {
    (s.0, s.1)
}

/// The seven kinds of action a player can announce.
#[derive(Clone, Copy, PartialEq, Eq, Structural, Debug)]
pub enum ActionKind {
    Attack,
    Defend,
    Reflect,
    ReflectTrump,
    Take,
    PassAttack,
    ThrowCards,
}

/// An action: a kind plus its payload. `card` carries the single card of
/// `Attack`, `Defend`, `Reflect` and `ReflectTrump`; `throw` carries the
/// ordered card list of `ThrowCards`. Unused payload fields keep their
/// default values so that equality stays structural.
#[derive(Debug)]
pub struct Action {
    pub name: ActionKind,
    pub card: CardId,
    pub throw: Vec<CardId>,
}

impl Clone for Action {
    fn clone(&self) -> (r: Action)
        ensures
            r.name == self.name,
            r.card == self.card,
            r.throw@ == self.throw@,
    {
        let mut t: Vec<CardId> = Vec::new();
        let n = self.throw.len();
        let mut i: usize = 0;
        while i < n
            invariant
                n == self.throw.len(),
                i <= n,
                t@ =~= self.throw@.subrange(0, i as int),
            decreases n - i,
        {
            t.push((self.throw[i].0, self.throw[i].1));
            i = i + 1;
        }
        proof {
            assert(t@ =~= self.throw@);
        }
        Action { name: self.name, card: (self.card.0, self.card.1), throw: t }
    }
}

impl Default for Action {
    /// An `Attack` action with no payload yet.
    fn default() -> (a: Action)
        ensures
            a.name == ActionKind::Attack,
            a.card == ((-1i8, -1i8)),
            a.throw@ =~= Seq::<CardId>::empty(),
    {
        Action { name: ActionKind::Attack, card: (-1, -1), throw: Vec::new() }
    }
}

impl PartialEq for Action {
    fn eq(&self, other: &Action) -> (r: bool) {
        if self.name != other.name {
            return false;
        }
        if self.card.0 != other.card.0 || self.card.1 != other.card.1 {
            return false;
        }
        if self.throw.len() != other.throw.len() {
            return false;
        }
        let n = self.throw.len();
        let mut i: usize = 0;
        while i < n
            invariant
                n == self.throw.len(),
                n == other.throw.len(),
                i <= n,
                forall|j: int| 0 <= j < i ==> self.throw@[j] == other.throw@[j],
            decreases n - i,
        {
            if self.throw[i].0 != other.throw[i].0 || self.throw[i].1 != other.throw[i].1 {
                return false;
            }
            i = i + 1;
        }
        proof {
            assert(self.throw@ =~= other.throw@);
        }
        true
    }
}

impl Eq for Action {
}

impl vstd::std_specs::cmp::PartialEqSpecImpl for Action {
    open spec fn obeys_eq_spec() -> bool {
        true
    }

    open spec fn eq_spec(&self, other: &Action) -> bool {
        self.name == other.name && self.card == other.card && self.throw@ == other.throw@
    }
}

} // verus!
