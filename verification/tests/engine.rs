//! Unit tests of the engine: the beating relation, the legal-move filters,
//! hidden-card feasibility, dealing, masking, determinizing, and whole games
//! played to the end with random policies.

use durak::cards::{Action, ActionKind, Card, beats};
use durak::collection::CardCollection;
use durak::game::GameState;
use durak::legal::sort_ids;
use durak::mcts::{best_action, merge_ratings};
use rand::rngs::StdRng;
use rand::SeedableRng;

fn bare(kind: ActionKind) -> Action {
    Action { name: kind, card: (-1, -1), throw: Vec::new() }
}

fn total_cards(g: &GameState) -> usize {
    let mut total = 0;
    for c in &g.deck {
        if !c.is_unknown {
            total += 1;
        }
    }
    for h in &g.card_collection.hands {
        for s in h {
            if s.0 != -1 {
                total += 1;
            }
        }
    }
    total += g.cards_to_defend.len();
    total += 2 * g.pairs_finished.len();
    total += g.card_collection.unknown.len();
    total += g.discard.len();
    total
}

#[test]
fn beats_follows_suit_and_trump() {
    // same suit: the higher value wins
    assert!(beats((0, 5), (0, 3), 1));
    assert!(!beats((0, 3), (0, 5), 1));
    assert!(!beats((0, 5), (0, 5), 1));
    // a trump beats any non-trump
    assert!(beats((1, 0), (2, 8), 1));
    // a non-trump never beats a trump
    assert!(!beats((2, 8), (1, 0), 1));
    // different non-trump suits never beat each other
    assert!(!beats((2, 8), (3, 0), 1));
}

#[test]
fn initialization_deals_six_each() {
    let mut g = GameState::new(2, 0);
    let mut rng = StdRng::seed_from_u64(11);
    g.initialize(&mut rng);
    assert!(!g.is_terminal());
    assert_eq!(g.card_collection.hands[0].len(), 6);
    assert_eq!(g.card_collection.hands[1].len(), 6);
    assert_eq!(g.deck.len(), 24);
    assert!(g.deck[0].value != 8);
    assert!(g.trump() >= 0 && g.trump() < 4);
    assert_eq!(g.player_to_play, 0);
    assert_eq!(g.defender, 1);
    assert_eq!(total_cards(&g), 36);
}

#[test]
fn six_player_deal_takes_the_whole_deck() {
    let mut g = GameState::new(6, 2);
    let mut rng = StdRng::seed_from_u64(3);
    g.initialize(&mut rng);
    assert_eq!(g.deck.len(), 0);
    for p in 0..6 {
        assert_eq!(g.card_collection.hands[p].len(), 6);
    }
    assert_eq!(g.player_to_play, 2);
    assert_eq!(g.defender, 3);
    assert_eq!(total_cards(&g), 36);
}

#[test]
fn seeded_games_are_reproducible() {
    fn run(seed: u64) -> (i8, u8, usize) {
        let mut g = GameState::new(2, 0);
        let mut rng = StdRng::seed_from_u64(seed);
        g.initialize(&mut rng);
        let trump = g.trump();
        let mut steps = 0usize;
        while !g.is_terminal() && steps < 10000 {
            let p = g.player_to_play;
            g.make_cards_known(p, &mut rng);
            let a = g.get_random_action(&mut rng).expect("a legal action must exist");
            assert!(g.can_play_action(&a));
            g.execute_action(&a);
            assert_eq!(total_cards(&g), 36);
            steps += 1;
        }
        assert!(g.is_terminal());
        (trump, g.loser_seat(), steps)
    }
    assert_eq!(run(5), run(5));
    assert_eq!(run(77), run(77));
}

#[test]
fn random_games_terminate() {
    // random play from fresh deals ends within a generous step budget, and
    // no identity ever returns to the non-public set on the way
    for seed in 0..5u64 {
        let mut g = GameState::new(3, 1);
        let mut rng = StdRng::seed_from_u64(seed);
        g.initialize(&mut rng);
        let mut steps = 0usize;
        while !g.is_terminal() && steps < 10000 {
            let p = g.player_to_play;
            g.make_cards_known(p, &mut rng);
            let before = g.card_collection.non_public.clone();
            let a = g.get_random_action(&mut rng).expect("a legal action must exist");
            assert!(g.can_play_action(&a));
            g.execute_action(&a);
            for id in &g.card_collection.non_public {
                assert!(before.contains(id));
            }
            steps += 1;
        }
        assert!(g.is_terminal());
        assert!(g.loser_seat() < 3);
    }
}

#[test]
fn unknown_slots_fall_back_to_every_hidden_identity() {
    // after a blind deal every slot is unknown, so a player's possible plays
    // are all 35 identities that are not the public bottom card
    let mut g = GameState::new(2, 0);
    assert!(g.set_bottom(0));
    g.start_game();
    let poss = g.possible_card_plays(0);
    assert_eq!(poss.len(), 35);
    assert!(!poss.contains(&(0, 0)));
    // once a card is revealed privately to the other player, it is still a
    // candidate for this player's unknown slots
    let id = g.card_collection.unknown[0];
    assert!(g.reveal_slot(1, id));
    let poss2 = g.possible_card_plays(0);
    assert!(poss2.contains(&id));
    // but not for the player who holds it privately
    let poss3 = g.possible_card_plays(1);
    assert!(poss3.contains(&id));
    let fb1 = g.fallback_identities(1);
    assert!(!fb1.contains(&id));
}

#[test]
fn different_seeds_reach_different_trumps() {
    // the random draw really depends on the generator
    let mut seen = Vec::new();
    for seed in 0..20u64 {
        let mut g = GameState::new(2, 0);
        let mut rng = StdRng::seed_from_u64(seed);
        g.initialize(&mut rng);
        if !seen.contains(&g.trump()) {
            seen.push(g.trump());
        }
    }
    assert!(seen.len() >= 2);
}

#[test]
fn masking_hides_only_other_private_cards() {
    let mut g = GameState::new(2, 0);
    let mut rng = StdRng::seed_from_u64(9);
    g.initialize(&mut rng);
    g.make_cards_known(0, &mut rng);
    g.make_cards_known(1, &mut rng);
    let own_hand = g.card_collection.hands[0].clone();
    g.mask_view(0);
    assert_eq!(g.card_collection.hands[0], own_hand);
    for s in &g.card_collection.hands[1] {
        assert_eq!(*s, (-1, -1, false));
    }
    assert_eq!(total_cards(&g), 36);
}

#[test]
fn determinizing_empties_the_pool() {
    let mut g = GameState::new(3, 0);
    let mut rng = StdRng::seed_from_u64(4);
    g.initialize(&mut rng);
    g.determinize(&mut rng);
    assert_eq!(g.card_collection.unknown.len(), 0);
    for c in &g.deck {
        assert!(!c.is_unknown);
    }
    for h in &g.card_collection.hands {
        for s in h {
            assert!(s.0 != -1);
        }
    }
    assert_eq!(total_cards(&g), 36);
}

#[test]
fn determinized_playout_reaches_an_end() {
    let mut g = GameState::new(2, 1);
    let mut rng = StdRng::seed_from_u64(13);
    g.initialize(&mut rng);
    g.mask_view(0);
    g.determinize(&mut rng);
    let done = g.random_playout(&mut rng, 10000);
    assert!(done);
    assert!(g.is_terminal());
}

#[test]
fn revealing_slots_moves_pool_cards() {
    let mut g = GameState::new(2, 0);
    assert!(g.set_bottom(1));
    g.start_game();
    // hands were dealt face down: the slots are unknown
    assert!(g.card_collection.hands[0].iter().any(|s| s.0 == -1));
    let id = g.card_collection.unknown[0];
    assert!(g.reveal_slot(0, id));
    assert!(g.card_collection.hands[0].contains(&(id.0, id.1, false)));
    assert!(!g.card_collection.unknown.contains(&id));
    // an identity no longer in the pool is refused
    assert!(!g.reveal_slot(0, id));
    assert_eq!(total_cards(&g), 36);
}

#[test]
fn second_attack_must_match_table_values() {
    // after one defended pair, new attacks must repeat a value on the table
    let mut g = staged2(&[(2, 1), (0, 1), (1, 7)], &[(2, 2), (0, 0), (3, 3)]);
    g.execute_action(&card_act(ActionKind::Attack, (2, 1)));
    g.execute_action(&card_act(ActionKind::Defend, (2, 2)));
    assert_eq!(g.current_action, ActionKind::Attack);
    let allowed = g.allowed_plays();
    assert!(allowed.iter().any(|a| a.name == ActionKind::PassAttack));
    assert!(allowed.iter().any(|a| a.name == ActionKind::Attack && a.card == (0, 1)));
    assert!(allowed.iter().all(|a| !(a.name == ActionKind::Attack && a.card == (1, 7))));
}

#[test]
fn throws_are_limited_and_match_values() {
    // trump clubs; the defender takes a seven, so only value-matching cards
    // may be thrown, at most up to the defender's remaining capacity
    let mut g = staged2(&[(2, 1), (0, 1), (3, 5)], &[(1, 1), (0, 0)]);
    g.execute_action(&card_act(ActionKind::Attack, (2, 1)));
    g.execute_action(&bare(ActionKind::Take));
    assert_eq!(g.current_action, ActionKind::ThrowCards);
    let allowed = g.allowed_plays();
    // the empty throw is always offered
    assert!(allowed.iter().any(|a| a.name == ActionKind::ThrowCards && a.throw.is_empty()));
    // a value-matching single throw is offered
    assert!(allowed.iter().any(|a| a.name == ActionKind::ThrowCards && a.throw == vec![(0, 1)]));
    // off-value cards are never thrown
    assert!(allowed.iter().all(|a| !a.throw.contains(&(3, 5))));
    // capacity: the defender holds two cards and one is already coming, so
    // no throw of two cards is offered
    assert!(allowed.iter().all(|a| a.throw.len() <= 1));
    g.execute_action(&Action { name: ActionKind::ThrowCards, card: (-1, -1), throw: vec![(0, 1)] });
    // the round came back to the only attacker: the defender picked up
    assert!(g.card_collection.hands[1].contains(&(2, 1, true)));
    assert!(g.card_collection.hands[1].contains(&(0, 1, true)));
    assert_eq!(total_cards(&g), 36);
}

#[test]
fn throws_of_several_cards_are_offered() {
    // with enough capacity, every feasible value-matching subset is offered,
    // in canonical sorted order
    let mut g = staged2(&[(2, 1), (0, 1), (1, 1), (3, 5)], &[(0, 0), (2, 2), (3, 3)]);
    g.execute_action(&card_act(ActionKind::Attack, (2, 1)));
    g.execute_action(&bare(ActionKind::Take));
    let allowed = g.allowed_plays();
    assert!(allowed.iter().any(|a| a.throw == vec![(0, 1)]));
    assert!(allowed.iter().any(|a| a.throw == vec![(1, 1)]));
    assert!(allowed.iter().any(|a| a.throw == vec![(0, 1), (1, 1)]));
    // capacity two: no three-card throw is possible here anyway, and the
    // off-value card never appears
    assert!(allowed.iter().all(|a| !a.throw.contains(&(3, 5))));
    g.execute_action(&Action {
        name: ActionKind::ThrowCards,
        card: (-1, -1),
        throw: vec![(0, 1), (1, 1)],
    });
    assert!(g.card_collection.hands[1].contains(&(2, 1, true)));
    assert!(g.card_collection.hands[1].contains(&(0, 1, true)));
    assert!(g.card_collection.hands[1].contains(&(1, 1, true)));
    assert_eq!(total_cards(&g), 36);
}

#[test]
fn passing_burns_the_pairs() {
    let mut g = staged2(&[(2, 1), (0, 5)], &[(2, 2), (0, 0)]);
    g.execute_action(&card_act(ActionKind::Attack, (2, 1)));
    g.execute_action(&card_act(ActionKind::Defend, (2, 2)));
    assert_eq!(g.pairs_finished.len(), 1);
    g.execute_action(&bare(ActionKind::PassAttack));
    // the single attacker passed: the defense succeeded, the pair burnt
    assert!(g.discard.contains(&(2, 1)));
    assert!(g.discard.contains(&(2, 2)));
    assert_eq!(g.pairs_finished.len(), 0);
    // the successful defender opens the next trick
    assert_eq!(g.main_attacker, 1);
    assert_eq!(total_cards(&g), 36);
}

#[test]
fn sorting_canonicalizes_throws() {
    let mut v: Vec<(i8, i8)> = vec![(2, 3), (0, 5), (2, 1), (1, 0)];
    sort_ids(&mut v);
    assert_eq!(v, vec![(0, 5), (1, 0), (2, 1), (2, 3)]);
}

#[test]
fn best_action_compares_win_rates_exactly() {
    let take = bare(ActionKind::Take);
    let defend = card_act(ActionKind::Defend, (0, 1));
    let ratings = vec![(take.clone(), 1, 2), (defend.clone(), 3, 4)];
    let best = best_action(&ratings).expect("two actions rated");
    assert_eq!(best.name, ActionKind::Defend);
    let none = best_action(&Vec::new());
    assert!(none.is_none());
    // equal rates keep the first
    let tied = vec![(take.clone(), 1, 2), (defend.clone(), 2, 4)];
    let first = best_action(&tied).expect("two actions rated");
    assert_eq!(first.name, ActionKind::Take);
}

#[test]
fn merging_sums_ratings_by_action()
{
    let take = bare(ActionKind::Take);
    let defend = card_act(ActionKind::Defend, (0, 1));
    let mut total = vec![(take.clone(), 1, 2)];
    let part = vec![(take.clone(), 2, 3), (defend.clone(), 1, 1)];
    merge_ratings(&mut total, &part);
    assert_eq!(total.len(), 2);
    assert_eq!(total[0].1, 3);
    assert_eq!(total[0].2, 5);
    assert_eq!(total[1].1, 1);
    assert_eq!(total[1].2, 1);
}

#[test]
fn actions_compare_structurally() {
    let a = Action { name: ActionKind::ThrowCards, card: (-1, -1), throw: vec![(0, 1), (2, 3)] };
    let b = a.clone();
    assert!(a == b);
    let c = Action { name: ActionKind::ThrowCards, card: (-1, -1), throw: vec![(2, 3), (0, 1)] };
    assert!(a != c);
    assert!(bare(ActionKind::Take) != bare(ActionKind::PassAttack));
}

// helpers shared by the filter tests

fn card_act(kind: ActionKind, card: (i8, i8)) -> Action {
    Action { name: kind, card, throw: Vec::new() }
}

/// A fully revealed two-player position with trump clubs: player 0 attacks
/// player 1; everything not in a hand lies face up in the deck.
fn staged2(hand0: &[(i8, i8)], hand1: &[(i8, i8)]) -> GameState {
    let trump = 0i8;
    let mut used: Vec<(i8, i8)> = Vec::new();
    used.extend_from_slice(hand0);
    used.extend_from_slice(hand1);
    let mut rest: Vec<(i8, i8)> = Vec::new();
    for s in 0..4i8 {
        for v in 0..9i8 {
            if !used.contains(&(s, v)) {
                rest.push((s, v));
            }
        }
    }
    let bi = rest
        .iter()
        .position(|c| c.0 == trump && c.1 != 8)
        .expect("a non-ace trump must remain");
    let bottom = rest.remove(bi);
    let mut deck: Vec<Card> = Vec::new();
    let conc = |id: (i8, i8)| Card {
        suit: id.0,
        value: id.1,
        trump_suit: trump,
        is_public: true,
        is_private: false,
        is_unknown: false,
    };
    deck.push(conc(bottom));
    for c in &rest {
        deck.push(conc(*c));
    }
    GameState {
        is_end_state: false,
        loser: 0,
        card_collection: CardCollection {
            unknown: Vec::new(),
            non_public: Vec::new(),
            hands: vec![
                hand0.iter().map(|c| (c.0, c.1, true)).collect(),
                hand1.iter().map(|c| (c.0, c.1, true)).collect(),
            ],
            trump_suit: trump,
        },
        deck,
        attackers: vec![0],
        defender: 1,
        current_attacker: 0,
        player_to_play: 0,
        draw_order: vec![0, 1],
        attacker_to_start_throwing: 0,
        last_played_attacker: 0,
        reflected_trumps: Vec::new(),
        current_action: ActionKind::Attack,
        pairs_finished: Vec::new(),
        cards_to_defend: Vec::new(),
        discard: Vec::new(),
        num_players: 2,
        main_attacker: 0,
    }
}
