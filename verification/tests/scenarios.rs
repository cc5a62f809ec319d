//! End-to-end scenarios of single tricks: plain defense, taking, reflecting,
//! trump-reflecting, the ace-bottom redeal, and a one-rollout search.
//!
//! Suits are numbered 0..4 (clubs, spades, hearts, diamonds) and values 0..9
//! (six up to ace; value 8 is the ace).

use durak::cards::{Action, ActionKind, Card};
use durak::collection::CardCollection;
use durak::game::GameState;
use durak::mcts::{best_action, MCTree};
use rand::rngs::StdRng;
use rand::SeedableRng;

type Id = (i8, i8);

fn concrete_card(id: Id, trump: i8) -> Card {
    Card {
        suit: id.0,
        value: id.1,
        trump_suit: trump,
        is_public: true,
        is_private: false,
        is_unknown: false,
    }
}

/// A fully revealed position: the listed hands hold their cards publicly,
/// everything else lies face up in the deck with a non-ace of the trump suit
/// at the bottom, and `main` opens the trick against the next seat.
fn staged(num_players: u8, trump: i8, hands: &[&[Id]], main: u8) -> GameState {
    let mut used: Vec<Id> = Vec::new();
    for h in hands {
        for c in *h {
            used.push(*c);
        }
    }
    let mut rest: Vec<Id> = Vec::new();
    for s in 0..4i8 {
        for v in 0..9i8 {
            if !used.contains(&(s, v)) {
                rest.push((s, v));
            }
        }
    }
    let bi = rest
        .iter()
        .position(|c| c.0 == trump && c.1 != 8)
        .expect("a non-ace trump must remain for the bottom");
    let bottom = rest.remove(bi);
    let mut deck: Vec<Card> = Vec::new();
    deck.push(concrete_card(bottom, trump));
    for c in &rest {
        deck.push(concrete_card(*c, trump));
    }
    let hand_vecs: Vec<Vec<(i8, i8, bool)>> = hands
        .iter()
        .map(|h| h.iter().map(|c| (c.0, c.1, true)).collect())
        .collect();
    let n = num_players as usize;
    let rot: Vec<u8> = (0..n).map(|k| ((main as usize + k) % n) as u8).collect();
    let defender = rot[1];
    let mut attackers: Vec<u8> = rot.clone();
    attackers.remove(1);
    let mut draw_order = attackers.clone();
    draw_order.push(defender);
    let player_to_play = attackers[0];
    GameState {
        is_end_state: false,
        loser: 0,
        card_collection: CardCollection {
            unknown: Vec::new(),
            non_public: Vec::new(),
            hands: hand_vecs,
            trump_suit: trump,
        },
        deck,
        attackers,
        defender,
        current_attacker: 0,
        player_to_play,
        draw_order,
        attacker_to_start_throwing: 0,
        last_played_attacker: 0,
        reflected_trumps: Vec::new(),
        current_action: ActionKind::Attack,
        pairs_finished: Vec::new(),
        cards_to_defend: Vec::new(),
        discard: Vec::new(),
        num_players,
        main_attacker: main,
    }
}

fn act(kind: ActionKind, card: Id) -> Action {
    Action { name: kind, card, throw: Vec::new() }
}

/// Every identity is accounted for exactly once across the containers.
fn total_cards(g: &GameState) -> usize {
    let mut total = 0;
    for c in &g.deck {
        if !c.is_unknown {
            total += 1;
        }
    }
    for h in &g.card_collection.hands {
        for s in h {
            if s.0 != -1 {
                total += 1;
            }
        }
    }
    total += g.cards_to_defend.len();
    total += 2 * g.pairs_finished.len();
    total += g.card_collection.unknown.len();
    total += g.discard.len();
    total
}

#[test]
fn trivial_defense() {
    // two players, trump clubs; the attacker plays the seven of hearts and
    // the defender beats it with the eight of hearts
    let mut g = staged(2, 0, &[&[(2, 1)], &[(2, 2)]], 0);
    assert_eq!(total_cards(&g), 36);
    g.execute_action(&act(ActionKind::Attack, (2, 1)));
    assert_eq!(g.current_action, ActionKind::Defend);
    assert_eq!(g.player_to_play, 1);
    g.execute_action(&act(ActionKind::Defend, (2, 2)));
    assert_eq!(g.pairs_finished, vec![((2, 1), (2, 2))]);
    assert_eq!(g.cards_to_defend.len(), 0);
    assert_eq!(g.current_action, ActionKind::Attack);
    assert_eq!(g.player_to_play, 0);
    assert_eq!(total_cards(&g), 36);
}

#[test]
fn take_and_pickup() {
    // two players, trump diamonds; the ace of clubs cannot be answered, the
    // defender takes, the attacker throws nothing, and the table moves into
    // the defender's hand publicly
    let mut g = staged(2, 3, &[&[(0, 8)], &[(1, 0)]], 0);
    g.execute_action(&act(ActionKind::Attack, (0, 8)));
    let allowed = g.allowed_plays();
    assert_eq!(allowed.len(), 1);
    assert_eq!(allowed[0].name, ActionKind::Take);
    g.execute_action(&act(ActionKind::Take, (-1, -1)));
    assert_eq!(g.current_action, ActionKind::ThrowCards);
    assert_eq!(g.player_to_play, 0);
    g.execute_action(&Action { name: ActionKind::ThrowCards, card: (-1, -1), throw: Vec::new() });
    assert!(g.card_collection.hands[1].contains(&(0, 8, true)));
    // the new main attacker sits left of the defender
    assert_eq!(g.main_attacker, 0);
    // both hands were refilled to six from the deck
    assert_eq!(g.card_collection.hands[0].len(), 6);
    assert_eq!(g.card_collection.hands[1].len(), 6);
    assert_eq!(total_cards(&g), 36);
}

#[test]
fn reflect_passes_the_attack() {
    // three players, no pairs on the table; the defender reflects the nine
    // of spades with the nine of hearts and the next seat defends both
    let mut g = staged(3, 3, &[&[(1, 3)], &[(2, 3), (0, 0)], &[(0, 1), (0, 2)]], 0);
    assert_eq!(g.defender, 1);
    g.execute_action(&act(ActionKind::Attack, (1, 3)));
    let allowed = g.allowed_plays();
    assert!(allowed.iter().any(|a| a.name == ActionKind::Reflect && a.card == (2, 3)));
    g.execute_action(&act(ActionKind::Reflect, (2, 3)));
    assert_eq!(g.cards_to_defend, vec![(1, 3), (2, 3)]);
    assert_eq!(g.defender, 2);
    assert_eq!(g.player_to_play, 2);
    assert_eq!(g.last_played_attacker, 1);
    assert_eq!(g.current_action, ActionKind::Defend);
    assert_eq!(total_cards(&g), 36);
}

#[test]
fn trump_reflect_shows_the_trump() {
    // three players, trump spades; the defender shows the nine of spades:
    // the card stays in the hand, the defender role rotates, and the trump
    // may not reflect again this trick
    let mut g = staged(3, 1, &[&[(2, 3)], &[(1, 3), (0, 0)], &[(0, 1)]], 0);
    g.execute_action(&act(ActionKind::Attack, (2, 3)));
    let allowed = g.allowed_plays();
    assert!(allowed.iter().any(|a| a.name == ActionKind::ReflectTrump && a.card == (1, 3)));
    g.execute_action(&act(ActionKind::ReflectTrump, (1, 3)));
    assert!(g.card_collection.hands[1].contains(&(1, 3, true)));
    assert_eq!(g.cards_to_defend, vec![(2, 3)]);
    assert_eq!(g.defender, 2);
    assert_eq!(g.reflected_trumps, vec![(1, 3)]);
    // the used trump enables no further trump reflect in this trick
    let next = g.allowed_plays();
    assert!(next.iter().all(|a| !(a.name == ActionKind::ReflectTrump && a.card == (1, 3))));
    assert_eq!(total_cards(&g), 36);
}

#[test]
fn ace_bottom_is_redealt() {
    // drawing the ace of clubs as the bottom card is refused and the deal
    // restarts; a non-ace is accepted and the game starts with it
    let mut g = GameState::new(2, 0);
    // the pool lists identities suit-major: index 8 is the ace of clubs
    assert_eq!(g.card_collection.unknown[8], (0, 8));
    assert!(!g.set_bottom(8));
    assert_eq!(g.card_collection.unknown.len(), 36);
    assert!(g.set_bottom(0));
    g.start_game();
    assert!(g.deck[0].value != 8);
    assert_eq!(g.deck[0].suit, g.card_collection.trump_suit);
    assert!(!g.is_terminal());
    assert_eq!(total_cards(&g), 36);
}

#[test]
fn search_prefers_the_winning_defense() {
    // a single-rollout, single-deal, single-worker search on a position
    // whose only choices are a winning defense and taking: the defense is
    // expanded first and chosen
    let mut g = staged(2, 3, &[&[(2, 1)], &[(2, 2)]], 0);
    g.execute_action(&act(ActionKind::Attack, (2, 1)));
    let allowed = g.allowed_plays();
    assert_eq!(allowed.len(), 2);
    assert_eq!(allowed[0].name, ActionKind::Defend);
    assert_eq!(allowed[1].name, ActionKind::Take);
    let mut rng = StdRng::seed_from_u64(7);
    let mut tree = MCTree::new(g);
    tree.begin_rollout();
    let mut guard = 0;
    loop {
        if tree.needs_descend() {
            // with one rollout no selection step is ever needed; descend to
            // the first child if it happens regardless
            tree.descend(0);
        } else {
            let loser = tree.expand_or_finish(&mut rng, 10000);
            assert!(loser.is_some());
            tree.backpropagate(loser);
            break;
        }
        guard += 1;
        assert!(guard < 100);
    }
    let stats = tree.root_stats();
    assert_eq!(stats.len(), 1);
    assert!(stats[0].2 > 0);
    let best = best_action(&stats).expect("one action was explored");
    assert_eq!(best.name, ActionKind::Defend);
    assert_eq!(best.card, (2, 2));
}
