//! The knowledge store: which identities are still hidden, which are public,
//! and what every player's hand holds, including unknown-identity slots.
//!
//! The accounting spec functions below tally, per container, the multiset of
//! concrete card identities and the number of unknown slots. The game-state
//! invariant says that together they always make up the full 36-card deck.

use vstd::prelude::*;
use vstd::multiset::Multiset;

use crate::cards::{Card, CardId, HandSlot, slot_unknown, slot_id, valid_id, id_eq};

verus! {

/// The multiset contributed by one hand slot: nothing for an unknown slot,
/// the slot's identity otherwise.
pub open spec fn slot_mset(s: HandSlot) -> Multiset<CardId> {
    if slot_unknown(s) {
        Multiset::empty()
    } else {
        Multiset::empty().insert(slot_id(s))
    }
}

/// Concrete identities held by a hand.
pub open spec fn hand_mset(h: Seq<HandSlot>) -> Multiset<CardId>
    decreases h.len(),
{
    if h.len() == 0 {
        Multiset::empty()
    } else {
        hand_mset(h.drop_last()).add(slot_mset(h.last()))
    }
}

/// Number of unknown-identity slots in a hand.
pub open spec fn hand_unknowns(h: Seq<HandSlot>) -> nat
    decreases h.len(),
{
    if h.len() == 0 {
        0
    } else {
        hand_unknowns(h.drop_last()) + (if slot_unknown(h.last()) { 1nat } else { 0nat })
    }
}

/// Concrete identities held across all hands.
pub open spec fn hands_mset(hs: Seq<Vec<HandSlot>>) -> Multiset<CardId>
    decreases hs.len(),
{
    if hs.len() == 0 {
        Multiset::empty()
    } else {
        hands_mset(hs.drop_last()).add(hand_mset(hs.last()@))
    }
}

/// Number of unknown-identity slots across all hands.
pub open spec fn hands_unknowns(hs: Seq<Vec<HandSlot>>) -> nat
    decreases hs.len(),
{
    if hs.len() == 0 {
        0
    } else {
        hands_unknowns(hs.drop_last()) + hand_unknowns(hs.last()@)
    }
}

/// The multiset contributed by one deck entry.
pub open spec fn card_mset(c: Card) -> Multiset<CardId> {
    if c.is_unknown {
        Multiset::empty()
    } else {
        Multiset::empty().insert((c.suit, c.value))
    }
}

/// Concrete identities visible in the deck.
pub open spec fn deck_mset(d: Seq<Card>) -> Multiset<CardId>
    decreases d.len(),
{
    if d.len() == 0 {
        Multiset::empty()
    } else {
        deck_mset(d.drop_last()).add(card_mset(d.last()))
    }
}

/// Number of face-down deck entries whose identity is still unknown.
pub open spec fn deck_unknowns(d: Seq<Card>) -> nat
    decreases d.len(),
{
    if d.len() == 0 {
        0
    } else {
        deck_unknowns(d.drop_last()) + (if d.last().is_unknown { 1nat } else { 0nat })
    }
}

/// Identities of a plain identity list, as a multiset.
pub open spec fn ids_mset(s: Seq<CardId>) -> Multiset<CardId>
    decreases s.len(),
{
    if s.len() == 0 {
        Multiset::empty()
    } else {
        ids_mset(s.drop_last()).insert(s.last())
    }
}

/// Identities of the finished (attack, defense) pairs, flattened.
pub open spec fn pairs_mset(ps: Seq<(CardId, CardId)>) -> Multiset<CardId>
    decreases ps.len(),
{
    if ps.len() == 0 {
        Multiset::empty()
    } else {
        pairs_mset(ps.drop_last()).insert(ps.last().0).insert(ps.last().1)
    }
}

/// No identity occurs twice.
pub open spec fn distinct_ids(s: Seq<CardId>) -> bool {
    forall|i: int, j: int| 0 <= i < j < s.len() ==> s[i] != s[j]
}

pub proof fn lemma_hand_mset_push(h: Seq<HandSlot>, x: HandSlot)
    ensures
        hand_mset(h.push(x)) =~= hand_mset(h).add(slot_mset(x)),
        hand_unknowns(h.push(x)) == hand_unknowns(h) + (if slot_unknown(x) { 1nat } else { 0nat }),
{
    assert(h.push(x).drop_last() =~= h);
    assert(h.push(x).last() == x);
}

pub proof fn lemma_hand_mset_update(h: Seq<HandSlot>, i: int, x: HandSlot)
    requires
        0 <= i < h.len(),
    ensures
        hand_mset(h.update(i, x)).add(slot_mset(h[i])) =~= hand_mset(h).add(slot_mset(x)),
        hand_unknowns(h.update(i, x)) + (if slot_unknown(h[i]) { 1nat } else { 0nat })
            == hand_unknowns(h) + (if slot_unknown(x) { 1nat } else { 0nat }),
    decreases h.len(),
{
    if i == h.len() - 1 {
        assert(h.update(i, x).drop_last() =~= h.drop_last());
        assert(h.update(i, x).last() == x);
        assert(hand_mset(h.update(i, x)) == hand_mset(h.drop_last()).add(slot_mset(x)));
        assert(hand_mset(h) == hand_mset(h.drop_last()).add(slot_mset(h[i])));
        assert(hand_mset(h.update(i, x)).add(slot_mset(h[i])) =~= hand_mset(h).add(slot_mset(x)));
    } else {
        lemma_hand_mset_update(h.drop_last(), i, x);
        assert(h.drop_last()[i] == h[i]);
        assert(hand_mset(h.drop_last().update(i, x)).add(slot_mset(h[i])) =~= hand_mset(
            h.drop_last()).add(slot_mset(x)));
        assert(h.update(i, x).drop_last() =~= h.drop_last().update(i, x));
        assert(h.update(i, x).last() == h.last());
        assert(hand_mset(h.update(i, x)) == hand_mset(h.drop_last().update(i, x)).add(
            slot_mset(h.last())));
        assert(hand_mset(h) == hand_mset(h.drop_last()).add(slot_mset(h.last())));
        assert forall|v: CardId|
            hand_mset(h.update(i, x)).add(slot_mset(h[i])).count(v) == hand_mset(h).add(
                slot_mset(x)).count(v) by {
            assert(hand_mset(h.drop_last().update(i, x)).add(slot_mset(h[i])).count(v)
                == hand_mset(h.drop_last()).add(slot_mset(x)).count(v));
        }
        assert(hand_mset(h.update(i, x)).add(slot_mset(h[i])) =~= hand_mset(h).add(slot_mset(x)));
        assert(hand_unknowns(h.update(i, x)) == hand_unknowns(h.drop_last().update(i, x))
            + (if slot_unknown(h.last()) { 1nat } else { 0nat }));
    }
}

/// Effect of `Vec::swap_remove(i)` on a hand's accounting.
pub proof fn lemma_hand_mset_swap_remove(h: Seq<HandSlot>, i: int)
    requires
        0 <= i < h.len(),
    ensures
        hand_mset(h.update(i, h.last()).drop_last()).add(slot_mset(h[i])) =~= hand_mset(h),
        hand_unknowns(h.update(i, h.last()).drop_last())
            + (if slot_unknown(h[i]) { 1nat } else { 0nat }) == hand_unknowns(h),
{
    lemma_hand_mset_update(h, i, h.last());
    let u = h.update(i, h.last());
    assert(u.last() == h.last());
    assert(hand_mset(u) == hand_mset(u.drop_last()).add(slot_mset(h.last())));
    assert(hand_unknowns(u) == hand_unknowns(u.drop_last())
        + (if slot_unknown(h.last()) { 1nat } else { 0nat }));
    assert forall|v: CardId|
        hand_mset(u.drop_last()).add(slot_mset(h[i])).count(v) == hand_mset(h).count(v) by {
        assert(hand_mset(u).add(slot_mset(h[i])).count(v) == hand_mset(h).add(
            slot_mset(h.last())).count(v));
    }
    assert(hand_mset(u.drop_last()).add(slot_mset(h[i])) =~= hand_mset(h));
}


pub proof fn lemma_hands_mset_update(hs: Seq<Vec<HandSlot>>, p: int, nh: Vec<HandSlot>)
    requires
        0 <= p < hs.len(),
    ensures
        hands_mset(hs.update(p, nh)).add(hand_mset(hs[p]@)) =~= hands_mset(hs).add(
            hand_mset(nh@)),
        hands_unknowns(hs.update(p, nh)) + hand_unknowns(hs[p]@)
            == hands_unknowns(hs) + hand_unknowns(nh@),
    decreases hs.len(),
{
    if p == hs.len() - 1 {
        assert(hs.update(p, nh).drop_last() =~= hs.drop_last());
        assert(hs.update(p, nh).last() == nh);
        assert(hands_mset(hs.update(p, nh)) == hands_mset(hs.drop_last()).add(hand_mset(nh@)));
        assert(hands_mset(hs) == hands_mset(hs.drop_last()).add(hand_mset(hs[p]@)));
        assert(hands_mset(hs.update(p, nh)).add(hand_mset(hs[p]@)) =~= hands_mset(hs).add(
            hand_mset(nh@)));
    } else {
        lemma_hands_mset_update(hs.drop_last(), p, nh);
        assert(hs.drop_last()[p] == hs[p]);
        assert(hands_mset(hs.drop_last().update(p, nh)).add(hand_mset(hs[p]@)) =~= hands_mset(
            hs.drop_last()).add(hand_mset(nh@)));
        assert(hs.update(p, nh).drop_last() =~= hs.drop_last().update(p, nh));
        assert(hs.update(p, nh).last() == hs.last());
        assert(hands_mset(hs.update(p, nh)) == hands_mset(hs.drop_last().update(p, nh)).add(
            hand_mset(hs.last()@)));
        assert(hands_mset(hs) == hands_mset(hs.drop_last()).add(hand_mset(hs.last()@)));
        assert forall|v: CardId|
            hands_mset(hs.update(p, nh)).add(hand_mset(hs[p]@)).count(v) == hands_mset(hs).add(
                hand_mset(nh@)).count(v) by {
            assert(hands_mset(hs.drop_last().update(p, nh)).add(hand_mset(hs[p]@)).count(v)
                == hands_mset(hs.drop_last()).add(hand_mset(nh@)).count(v));
        }
        assert(hands_mset(hs.update(p, nh)).add(hand_mset(hs[p]@)) =~= hands_mset(hs).add(
            hand_mset(nh@)));
        assert(hands_unknowns(hs.update(p, nh)) == hands_unknowns(hs.drop_last().update(p, nh))
            + hand_unknowns(hs.last()@));
    }
}

/// The hands' tallies depend only on the slot sequences, not on the vector
/// values that hold them.
pub proof fn lemma_hands_mset_congruence(a: Seq<Vec<HandSlot>>, b: Seq<Vec<HandSlot>>)
    requires
        a.len() == b.len(),
        forall|p: int| 0 <= p < a.len() ==> (#[trigger] a[p])@ == b[p]@,
    ensures
        hands_mset(a) =~= hands_mset(b),
        hands_unknowns(a) == hands_unknowns(b),
    decreases a.len(),
{
    if a.len() > 0 {
        assert(forall|p: int|
            0 <= p < a.drop_last().len() ==> (#[trigger] a.drop_last()[p])@
                == b.drop_last()[p]@) by {
            assert(forall|p: int|
                0 <= p < a.drop_last().len() ==> #[trigger] a.drop_last()[p] == a[p]
                    && b.drop_last()[p] == b[p]);
        }
        lemma_hands_mset_congruence(a.drop_last(), b.drop_last());
        assert(a.last()@ == b.last()@) by {
            assert(a[a.len() - 1]@ == b[a.len() - 1]@);
        }
    }
}


pub proof fn lemma_deck_mset_update(d: Seq<Card>, i: int, c: Card)
    requires
        0 <= i < d.len(),
    ensures
        deck_mset(d.update(i, c)).add(card_mset(d[i])) =~= deck_mset(d).add(card_mset(c)),
        deck_unknowns(d.update(i, c)) + (if d[i].is_unknown { 1nat } else { 0nat })
            == deck_unknowns(d) + (if c.is_unknown { 1nat } else { 0nat }),
    decreases d.len(),
{
    if i == d.len() - 1 {
        assert(d.update(i, c).drop_last() =~= d.drop_last());
        assert(d.update(i, c).last() == c);
        assert(deck_mset(d.update(i, c)) == deck_mset(d.drop_last()).add(card_mset(c)));
        assert(deck_mset(d) == deck_mset(d.drop_last()).add(card_mset(d[i])));
        assert(deck_mset(d.update(i, c)).add(card_mset(d[i])) =~= deck_mset(d).add(card_mset(c)));
    } else {
        lemma_deck_mset_update(d.drop_last(), i, c);
        assert(d.drop_last()[i] == d[i]);
        assert(deck_mset(d.drop_last().update(i, c)).add(card_mset(d[i])) =~= deck_mset(
            d.drop_last()).add(card_mset(c)));
        assert(d.update(i, c).drop_last() =~= d.drop_last().update(i, c));
        assert(d.update(i, c).last() == d.last());
        assert(deck_mset(d.update(i, c)) == deck_mset(d.drop_last().update(i, c)).add(
            card_mset(d.last())));
        assert(deck_mset(d) == deck_mset(d.drop_last()).add(card_mset(d.last())));
        assert forall|v: CardId|
            deck_mset(d.update(i, c)).add(card_mset(d[i])).count(v) == deck_mset(d).add(
                card_mset(c)).count(v) by {
            assert(deck_mset(d.drop_last().update(i, c)).add(card_mset(d[i])).count(v)
                == deck_mset(d.drop_last()).add(card_mset(c)).count(v));
        }
        assert(deck_mset(d.update(i, c)).add(card_mset(d[i])) =~= deck_mset(d).add(card_mset(c)));
        assert(deck_unknowns(d.update(i, c)) == deck_unknowns(d.drop_last().update(i, c))
            + (if d.last().is_unknown { 1nat } else { 0nat }));
    }
}

pub proof fn lemma_ids_mset_push(s: Seq<CardId>, x: CardId)
    ensures
        ids_mset(s.push(x)) =~= ids_mset(s).insert(x),
{
    assert(s.push(x).drop_last() =~= s);
    assert(s.push(x).last() == x);
}

pub proof fn lemma_ids_mset_update(s: Seq<CardId>, i: int, x: CardId)
    requires
        0 <= i < s.len(),
    ensures
        ids_mset(s.update(i, x)).insert(s[i]) =~= ids_mset(s).insert(x),
    decreases s.len(),
{
    if i == s.len() - 1 {
        assert(s.update(i, x).drop_last() =~= s.drop_last());
        assert(s.update(i, x).last() == x);
        assert(ids_mset(s.update(i, x)) == ids_mset(s.update(i, x).drop_last()).insert(
            s.update(i, x).last()));
        assert(ids_mset(s.update(i, x)) == ids_mset(s.drop_last()).insert(x));
        assert(ids_mset(s) == ids_mset(s.drop_last()).insert(s[i]));
        assert(ids_mset(s.update(i, x)).insert(s[i]) =~= ids_mset(s).insert(x));
    } else {
        lemma_ids_mset_update(s.drop_last(), i, x);
        assert(s.drop_last()[i] == s[i]);
        assert(ids_mset(s.drop_last().update(i, x)).insert(s[i]) =~= ids_mset(
            s.drop_last()).insert(x));
        assert(s.update(i, x).drop_last() =~= s.drop_last().update(i, x));
        assert(s.update(i, x).last() == s.last());
        assert(ids_mset(s.update(i, x)) == ids_mset(s.update(i, x).drop_last()).insert(
            s.update(i, x).last()));
        assert(ids_mset(s.update(i, x)) == ids_mset(s.drop_last().update(i, x)).insert(s.last()));
        assert(ids_mset(s) == ids_mset(s.drop_last()).insert(s.last()));
        assert forall|v: CardId|
            ids_mset(s.update(i, x)).insert(s[i]).count(v) == ids_mset(s).insert(x).count(v) by {
            assert(ids_mset(s.drop_last().update(i, x)).insert(s[i]).count(v) == ids_mset(
                s.drop_last()).insert(x).count(v));
        }
        assert(ids_mset(s.update(i, x)).insert(s[i]) =~= ids_mset(s).insert(x));
    }
}

/// Effect of `Vec::swap_remove(i)` on a plain identity list.
pub proof fn lemma_ids_mset_swap_remove(s: Seq<CardId>, i: int)
    requires
        0 <= i < s.len(),
    ensures
        ids_mset(s.update(i, s.last()).drop_last()).insert(s[i]) =~= ids_mset(s),
{
    lemma_ids_mset_update(s, i, s.last());
    let u = s.update(i, s.last());
    assert(u.last() == s.last());
    assert(ids_mset(u) == ids_mset(u.drop_last()).insert(s.last()));
    assert forall|v: CardId|
        ids_mset(u.drop_last()).insert(s[i]).count(v) == ids_mset(s).count(v) by {
        assert(ids_mset(u).insert(s[i]).count(v) == ids_mset(s).insert(s.last()).count(v));
    }
    assert(ids_mset(u.drop_last()).insert(s[i]) =~= ids_mset(s));
}

/// An identity list contains exactly the identities its multiset counts.
pub proof fn lemma_ids_mset_contains(s: Seq<CardId>, x: CardId)
    ensures
        s.contains(x) <==> ids_mset(s).count(x) > 0,
    decreases s.len(),
{
    if s.len() > 0 {
        lemma_ids_mset_contains(s.drop_last(), x);
        assert(s.contains(x) <==> (s.last() == x || s.drop_last().contains(x))) by {
            if s.contains(x) {
                let i = choose|i: int| 0 <= i < s.len() && s[i] == x;
                if i < s.len() - 1 {
                    assert(s.drop_last()[i] == x);
                }
            }
            if s.drop_last().contains(x) {
                let i = choose|i: int| 0 <= i < s.drop_last().len() && s.drop_last()[i] == x;
                assert(s[i] == x);
            }
        }
    }
}

/// What a list contains after a push.
pub proof fn lemma_push_contains(s: Seq<CardId>, x: CardId)
    ensures
        forall|id: CardId| s.push(x).contains(id) <==> (s.contains(id) || id == x),
{
    assert forall|id: CardId| s.push(x).contains(id) <==> (s.contains(id) || id == x) by {
        if s.push(x).contains(id) {
            let i = choose|i: int| 0 <= i < s.push(x).len() && s.push(x)[i] == id;
            if i < s.len() {
                assert(s[i] == id);
            }
        }
        if s.contains(id) {
            let i = choose|i: int| 0 <= i < s.len() && s[i] == id;
            assert(s.push(x)[i] == id);
        }
        if id == x {
            assert(s.push(x)[s.len() as int] == id);
        }
    }
}

/// In a duplicate-free identity list every count is at most one.
pub proof fn lemma_distinct_counts(s: Seq<CardId>, x: CardId)
    requires
        distinct_ids(s),
    ensures
        ids_mset(s).count(x) <= 1,
    decreases s.len(),
{
    if s.len() > 0 {
        assert(distinct_ids(s.drop_last()));
        lemma_distinct_counts(s.drop_last(), x);
        if s.last() == x {
            assert(!s.drop_last().contains(x)) by {
                if s.drop_last().contains(x) {
                    let i = choose|i: int| 0 <= i < s.len() - 1 && s.drop_last()[i] == x;
                    assert(s[i] == s[s.len() - 1]);
                }
            }
            lemma_ids_mset_contains(s.drop_last(), x);
        }
    }
}

/// The full deck counts every valid identity exactly once and nothing else.
pub proof fn lemma_full_count(id: CardId)
    ensures
        valid_id(id) ==> full_mset().count(id) == 1,
        !valid_id(id) ==> full_mset().count(id) == 0,
{
    lemma_all_ids_distinct();
    lemma_distinct_counts(all_ids(), id);
    lemma_ids_mset_contains(all_ids(), id);
    if valid_id(id) {
        let idx = (id.0 as int) * 9 + (id.1 as int);
        assert(idx / 9 == id.0 as int && idx % 9 == id.1 as int) by (nonlinear_arith)
            requires
                0 <= (id.0 as int) && (id.0 as int) < 4,
                0 <= (id.1 as int) && (id.1 as int) < 9,
                idx == (id.0 as int) * 9 + (id.1 as int),
        ;
        assert(all_ids()[idx] == id);
        assert(all_ids().contains(id));
    } else {
        if all_ids().contains(id) {
            let i = choose|i: int| 0 <= i < 36 && all_ids()[i] == id;
            lemma_all_ids_valid();
        }
    }
}

/// There are only 36 valid identities, so a duplicate-free list of valid
/// identities has at most 36 entries.
pub proof fn lemma_distinct_valid_bound(s: Seq<CardId>)
    requires
        distinct_ids(s),
        forall|i: int| 0 <= i < s.len() ==> valid_id(#[trigger] s[i]),
    ensures
        s.len() <= 36,
{
    lemma_all_ids_distinct();
    assert(s.no_duplicates());
    assert(all_ids().no_duplicates());
    s.unique_seq_to_set();
    all_ids().unique_seq_to_set();
    assert forall|x: CardId| s.to_set().contains(x) implies all_ids().to_set().contains(x) by {
        assert(s.contains(x));
        let i = choose|i: int| 0 <= i < s.len() && s[i] == x;
        assert(valid_id(x));
        let idx = (x.0 as int) * 9 + (x.1 as int);
        assert(idx / 9 == x.0 as int && idx % 9 == x.1 as int) by (nonlinear_arith)
            requires
                0 <= (x.0 as int) && (x.0 as int) < 4,
                0 <= (x.1 as int) && (x.1 as int) < 9,
                idx == (x.0 as int) * 9 + (x.1 as int),
        ;
        assert(all_ids()[idx] == x);
        assert(all_ids().contains(x));
    }
    assert(s.to_set().subset_of(all_ids().to_set()));
    vstd::set_lib::lemma_len_subset(s.to_set(), all_ids().to_set());
}

/// Copy a vector of plain values.
pub fn copy_vec<T: Copy>(v: &Vec<T>) -> (r: Vec<T>)
    ensures
        r@ =~= v@,
{
    let mut r: Vec<T> = Vec::new();
    let n = v.len();
    let mut i: usize = 0;
    while i < n
        invariant
            n == v.len(),
            i <= n,
            r@ =~= v@.subrange(0, i as int),
        decreases n - i,
    {
        r.push(v[i]);
        i = i + 1;
    }
    proof {
        assert(r@ =~= v@);
    }
    r
}

/// Whether an identity list contains `id`.
pub fn contains_id(v: &Vec<CardId>, id: CardId) -> (r: bool)
    ensures
        r == v@.contains(id),
{
    let n = v.len();
    let mut i: usize = 0;
    while i < n
        invariant
            n == v.len(),
            i <= n,
            forall|j: int| 0 <= j < i ==> v@[j] != id,
        decreases n - i,
    {
        if id_eq(v[i], id) {
            return true;
        }
        i = i + 1;
    }
    false
}

/// Remove one occurrence of `id` from an identity list, if present.
/// Reports whether it was found.
pub fn remove_id(v: &mut Vec<CardId>, id: CardId) -> (found: bool)
    ensures
        !old(v)@.contains(id) ==> !found && final(v)@ =~= old(v)@,
        old(v)@.contains(id) ==> found && ids_mset(final(v)@).insert(id) =~= ids_mset(old(v)@)
            && final(v)@.len() == old(v)@.len() - 1,
        forall|x: CardId| final(v)@.contains(x) ==> old(v)@.contains(x),
        distinct_ids(old(v)@) ==> distinct_ids(final(v)@) && (forall|x: CardId|
            final(v)@.contains(x) <==> (old(v)@.contains(x) && x != id)),
{
    let ghost orig = v@;
    let n = v.len();
    let mut i: usize = 0;
    while i < n
        invariant
            v@ == orig,
            orig == old(v)@,
            n == v.len(),
            i <= n,
            forall|j: int| 0 <= j < i ==> v@[j] != id,
        decreases n - i,
    {
        if id_eq(v[i], id) {
            v.swap_remove(i);
            proof {
                assert(orig[i as int] == id);
                assert(orig.contains(id));
                lemma_ids_mset_swap_remove(orig, i as int);
                assert(v@ == orig.update(i as int, orig.last()).drop_last());
                assert(ids_mset(v@).insert(id) =~= ids_mset(orig));
                assert(v@.len() == orig.len() - 1);
                assert forall|x: CardId| #[trigger] v@.contains(x) implies orig.contains(x) by {
                    let j = choose|j: int| 0 <= j < v@.len() && v@[j] == x;
                    if j == i as int {
                        assert(orig[orig.len() - 1] == x);
                    } else {
                        assert(orig[j] == x);
                    }
                }
                if distinct_ids(orig) {
                    assert forall|a: int, b: int| 0 <= a < b < v@.len() implies v@[a] != v@[b] by {
                        let ga = if a == i as int { orig.len() - 1 } else { a };
                        let gb = if b == i as int { orig.len() - 1 } else { b };
                        assert(orig[ga] == v@[a] && orig[gb] == v@[b] && ga != gb);
                    }
                    assert forall|x: CardId| #[trigger] orig.contains(x) && x != id implies
                        v@.contains(x) by {
                        lemma_ids_mset_contains(orig, x);
                        assert(ids_mset(v@).count(x) == ids_mset(orig).count(x));
                        lemma_ids_mset_contains(v@, x);
                    }
                    assert forall|x: CardId| #[trigger] v@.contains(x) implies
                        orig.contains(x) && x != id by {
                        if x == id {
                            lemma_distinct_counts(orig, id);
                            lemma_ids_mset_contains(orig, id);
                            lemma_ids_mset_contains(v@, id);
                        }
                    }
                }
            }
            return true;
        }
        i = i + 1;
    }
    proof {
        assert(!v@.contains(id)) by {
            if v@.contains(id) {
                let j = choose|j: int| 0 <= j < v@.len() && v@[j] == id;
            }
        }
    }
    false
}

/// The 36 identities of the full deck, in suit-major order.
pub open spec fn all_ids() -> Seq<CardId> {
    Seq::new(36, |i: int| ((i / 9) as i8, (i % 9) as i8))
}

/// The full deck as a multiset: every identity exactly once.
pub open spec fn full_mset() -> Multiset<CardId> {
    ids_mset(all_ids())
}

/// Every identity of the full deck is valid.
pub proof fn lemma_all_ids_valid()
    ensures
        forall|i: int| 0 <= i < 36 ==> valid_id(#[trigger] all_ids()[i]),
        all_ids().len() == 36,
{
}

/// The full deck holds 36 distinct identities.
pub proof fn lemma_all_ids_distinct()
    ensures
        distinct_ids(all_ids()),
{
    assert forall|i: int, j: int| 0 <= i < j < 36 implies all_ids()[i] != all_ids()[j] by {
        assert(i == 9 * (i / 9) + (i % 9));
        assert(j == 9 * (j / 9) + (j % 9));
    }
}

/// Collection of all (suit, value) identities in the game: the pool of
/// identities still floating in unknown slots, the set of identities not yet
/// revealed to everyone, and every player's hand.
pub struct CardCollection {
    /// Identities not yet assigned to any concrete slot, table card or
    /// discard: the concrete contents of the face-down deck entries and of
    /// the unknown hand slots, as a pool.
    pub unknown: Vec<CardId>,
    /// Identities whose position is not public knowledge.
    pub non_public: Vec<CardId>,
    /// One hand per seat, in seat order.
    pub hands: Vec<Vec<HandSlot>>,
    /// Suit of the face-up bottom card; -1 before the deal.
    pub trump_suit: i8,
}

impl Default for CardCollection {
    /// A fresh collection: every identity unknown and non-public, no hands.
    fn default() -> (cc: CardCollection)
        ensures
            cc.unknown@ =~= all_ids(),
            cc.non_public@ =~= all_ids(),
            cc.hands@ =~= Seq::<Vec<HandSlot>>::empty(),
            cc.trump_suit == -1,
    {
        let mut unknown: Vec<CardId> = Vec::new();
        let mut k: usize = 0;
        while k < 36
            invariant
                k <= 36,
                unknown@ =~= all_ids().subrange(0, k as int),
            decreases 36 - k,
        {
            unknown.push(((k / 9) as i8, (k % 9) as i8));
            k = k + 1;
        }
        proof {
            assert(unknown@ =~= all_ids());
        }
        let non_public = copy_vec(&unknown);
        CardCollection { unknown, non_public, hands: Vec::new(), trump_suit: -1 }
    }
}

impl CardCollection {
    /// Whether `viewer`'s own knowledge rules `id` out as a candidate for an
    /// unknown slot: `id` is a candidate iff it is non-public and not a
    /// concrete private card of `viewer`'s own hand.
    pub open spec fn in_fallback(&self, viewer: int, id: CardId) -> bool {
        &&& self.non_public@.contains(id)
        &&& !(exists|j: int|
            0 <= j < self.hands@[viewer]@.len() && !slot_unknown(#[trigger] self.hands@[viewer]@[j])
                && !self.hands@[viewer]@[j].2 && slot_id(self.hands@[viewer]@[j]) == id)
    }

    /// Whether `id` is a possible play of `player`: a concrete slot holds it,
    /// or the hand has an unknown slot and `id` is a fallback candidate.
    pub open spec fn in_possible_plays(&self, player: int, id: CardId) -> bool {
        ||| exists|j: int|
            0 <= j < self.hands@[player]@.len() && !slot_unknown(#[trigger] self.hands@[player]@[j])
                && slot_id(self.hands@[player]@[j]) == id
        ||| (hand_unknowns(self.hands@[player]@) > 0 && self.in_fallback(player, id))
    }
}

} // verus!
