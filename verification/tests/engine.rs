use memory::{Deck, FlipPhase, GameRng, InitError, MatchRules, Mode, PlayError};

fn mode(rule: MatchRules, combo: bool, full_plate: bool) -> Mode {
    Mode { rule, combo, full_plate, duel: false }
}

fn new_deck(
    pairs: u32,
    ranks: u32,
    rule: MatchRules,
    players: u8,
    combo: bool,
    seed: u64,
) -> Deck {
    let mut rng = GameRng::from_seed(seed);
    Deck::init(pairs, ranks, mode(rule, combo, true), players, &mut rng).unwrap()
}

fn rank(d: &Deck, i: usize, ranks: u32) -> u32 {
    d.get_card(i) % ranks
}

/// Cells of a fresh deck, grouped into the positions of each rank.
fn positions_by_rank(d: &Deck, ranks: u32) -> Vec<Vec<usize>> {
    let mut groups: Vec<Vec<usize>> = (0..ranks).map(|_| Vec::new()).collect();
    for i in 0..d.len() {
        groups[rank(d, i, ranks) as usize].push(i);
    }
    groups
}

#[test]
fn any_color_two_pairs_single_player() {
    // A four-cell any-colour game with two distinct ranks, played to the
    // end by its single player, is won by that player.
    let mut found = false;
    for seed in 0..1000u64 {
        let d = new_deck(2, 2, MatchRules::AnyColor, 1, false, seed);
        assert_eq!(d.len(), 4);
        let groups = positions_by_rank(&d, 2);
        if groups[0].len() == 2 && groups[1].len() == 2 {
            found = true;
            let mut d = d;
            d.play(groups[0][0]);
            d.play(groups[0][1]);
            assert_eq!(d.get_owner(groups[0][0]), 1);
            assert_eq!(d.get_owner(groups[0][1]), 1);
            assert_eq!(d.outcome(), None);
            d.play(groups[1][0]);
            d.play(groups[1][1]);
            assert_eq!(d.get_owner(groups[1][0]), 1);
            assert_eq!(d.get_owner(groups[1][1]), 1);
            assert_eq!(d.outcome(), Some(0));
            break;
        }
    }
    assert!(found, "no layout with both ranks appeared");
}

#[test]
fn any_color_match_always_takes_both_cells() {
    // Whatever the shuffle did, two same-rank cells always match under
    // the any-colour rule and both go to the player who flipped them.
    for seed in 0..50u64 {
        let mut d = new_deck(3, 4, MatchRules::AnyColor, 2, false, seed);
        let groups = positions_by_rank(&d, 4);
        let group = groups.iter().find(|g| g.len() >= 2).unwrap();
        d.play(group[0]);
        d.play(group[1]);
        assert_eq!(d.get_owner(group[0]), 1);
        assert_eq!(d.get_owner(group[1]), 1);
    }
}

#[test]
fn zebra_same_color_pair_does_not_match() {
    // With a single rank the zebra deck holds all four suits of that
    // rank. Suits of equal parity are the same colour, so such a pair
    // must not match: owners stay zero and the turn passes.
    for seed in 0..50u64 {
        let mut d = new_deck(2, 1, MatchRules::Zebra, 2, false, seed);
        assert_eq!(d.len(), 4);
        // With one rank the card code is exactly the suit.
        let even_a = (0..4).find(|&i| d.get_card(i) == 0).unwrap();
        let even_b = (0..4).find(|&i| d.get_card(i) == 2).unwrap();
        assert_eq!(d.player(), 0);
        d.play(even_a);
        d.play(even_b);
        assert_eq!(d.get_owner(even_a), 0);
        assert_eq!(d.get_owner(even_b), 0);
        assert_eq!(d.outcome(), None);
        assert_eq!(d.player(), 1);
    }
}

#[test]
fn zebra_opposite_color_pair_matches() {
    let mut d = new_deck(2, 1, MatchRules::Zebra, 2, false, 11);
    let even = (0..4).find(|&i| d.get_card(i) == 0).unwrap();
    let odd = (0..4).find(|&i| d.get_card(i) == 1).unwrap();
    d.play(even);
    d.play(odd);
    assert_eq!(d.get_owner(even), 1);
    assert_eq!(d.get_owner(odd), 1);
}

#[test]
fn illegal_moves_fail_fast() {
    // Playing an unavailable cell is an error, never a silent no-op.
    let mut d = new_deck(2, 2, MatchRules::AnyColor, 1, false, 3);
    assert_eq!(d.try_play(17), Err(PlayError::OutOfBounds));
    assert_eq!(d.try_play(0), Ok(()));
    // The single face-up card cannot be picked again.
    let before: Vec<u32> = (0..4).map(|i| d.get_count(i)).collect();
    assert_eq!(d.try_play(0), Err(PlayError::Unavailable));
    let after: Vec<u32> = (0..4).map(|i| d.get_count(i)).collect();
    assert_eq!(before, after, "a rejected move must not change the deck");
}

#[test]
fn finished_game_rejects_every_move() {
    let mut found = false;
    for seed in 0..1000u64 {
        let mut d = new_deck(2, 2, MatchRules::AnyColor, 1, false, seed);
        let groups = positions_by_rank(&d, 2);
        if groups[0].len() == 2 && groups[1].len() == 2 {
            d.play(groups[0][0]);
            d.play(groups[0][1]);
            d.play(groups[1][0]);
            d.play(groups[1][1]);
            assert!(d.outcome().is_some());
            for i in 0..4 {
                assert_eq!(d.try_play(i), Err(PlayError::Finished));
            }
            found = true;
            break;
        }
    }
    assert!(found);
}

#[test]
fn replay_is_deterministic() {
    // The same layout and the same picks always give the same states:
    // all randomness sits in generation.
    let d0 = new_deck(4, 6, MatchRules::AnyColor, 2, false, 99);
    let mut a = d0.clone();
    let mut b = d0.clone();
    let moves: Vec<usize> = {
        let mut m = Vec::new();
        let mut probe = d0.clone();
        while probe.outcome().is_none() {
            let avail = probe.available_moves();
            let first = avail[0];
            probe.play(first);
            m.push(first);
            // Under the any-colour rule an unowned cell always has an
            // unowned same-rank partner, so the probe game finishes.
            let avail = probe.available_moves();
            let partner = avail
                .iter()
                .copied()
                .find(|&i| probe.get_card(i) % 6 == probe.get_card(first) % 6)
                .unwrap();
            probe.play(partner);
            m.push(partner);
        }
        m
    };
    for &mv in &moves {
        a.play(mv);
        b.play(mv);
        assert_eq!(a.player(), b.player());
        assert_eq!(a.outcome(), b.outcome());
        assert_eq!(a.scores, b.scores);
        assert_eq!(a.opened, b.opened);
        for i in 0..a.len() {
            assert_eq!(a.get_owner(i), b.get_owner(i));
            assert_eq!(a.get_count(i), b.get_count(i));
        }
    }
    assert!(a.outcome().is_some());
}

#[test]
fn available_moves_shrink_by_two_on_match_only() {
    // A matched pair takes exactly its two cells out of the legal
    // moves; a mismatched pair leaves the count unchanged.
    let mut d = new_deck(2, 1, MatchRules::Zebra, 2, false, 5);
    let even_a = (0..4).find(|&i| d.get_card(i) == 0).unwrap();
    let even_b = (0..4).find(|&i| d.get_card(i) == 2).unwrap();
    let odd_a = (0..4).find(|&i| d.get_card(i) == 1).unwrap();
    assert_eq!(d.available_moves().len(), 4);
    d.play(even_a);
    assert_eq!(d.available_moves().len(), 3);
    d.play(even_b);
    // Same colour: no match; at the pair boundary all cells are free again.
    assert_eq!(d.available_moves().len(), 4);
    d.play(even_a);
    d.play(odd_a);
    // Opposite colours: matched, two cells gone for good.
    assert_eq!(d.available_moves().len(), 2);
}

#[test]
fn turn_passes_after_every_pair_without_combo() {
    let mut d = new_deck(3, 4, MatchRules::AnyColor, 3, false, 123);
    let groups = positions_by_rank(&d, 4);
    let group = groups.iter().find(|g| g.len() >= 2).unwrap();
    assert_eq!(d.player(), 0);
    d.play(group[0]);
    assert_eq!(d.player(), 0, "the first flip of a pair keeps the turn");
    d.play(group[1]);
    assert_eq!(d.player(), 1, "without combo even a match passes the turn");
}

#[test]
fn combo_keeps_turn_after_match() {
    let mut d = new_deck(3, 4, MatchRules::AnyColor, 2, true, 123);
    let groups = positions_by_rank(&d, 4);
    let matching = groups.iter().find(|g| g.len() >= 2).unwrap();
    d.play(matching[0]);
    d.play(matching[1]);
    assert_eq!(d.get_owner(matching[0]), 1);
    assert_eq!(d.player(), 0, "a combo match keeps the turn");
}

#[test]
fn combo_mismatch_still_passes_turn() {
    for seed in 0..50u64 {
        let mut d = new_deck(3, 4, MatchRules::AnyColor, 2, true, seed);
        let groups = positions_by_rank(&d, 4);
        let a = groups.iter().position(|g| !g.is_empty()).unwrap();
        let b = groups.iter().rposition(|g| !g.is_empty()).unwrap();
        if a == b {
            continue;
        }
        d.play(groups[a][0]);
        d.play(groups[b][0]);
        assert_eq!(d.player(), 1, "a mismatch passes the turn even with combo");
    }
}

#[test]
fn repeat_flips_are_counted_and_scored() {
    let mut found = false;
    for seed in 0..1000u64 {
        let mut d = new_deck(2, 2, MatchRules::AnyColor, 1, true, seed);
        let groups = positions_by_rank(&d, 2);
        if groups[0].len() != 2 {
            continue;
        }
        found = true;
        let (a1, a2) = (groups[0][0], groups[0][1]);
        let (b1, b2) = (groups[1][0], groups[1][1]);
        // Mismatch first: both cells seen once.
        d.play(a1);
        d.play(b1);
        assert_eq!(d.scores[0], 0);
        // Now match the first rank; its closing cell is on its second
        // flip, so the pair scores its flip counts: 1 + 2.
        d.play(a2);
        d.play(a1);
        assert_eq!(d.get_count(a1), 2);
        assert_eq!(d.get_count(a2), 1);
        assert_eq!(d.scores[0], 3);
        // The final pair ends the game and always scores: 2 + 1.
        d.play(b1);
        d.play(b2);
        assert_eq!(d.scores[0], 6);
        assert_eq!(d.outcome(), Some(0));
        break;
    }
    assert!(found);
}

#[test]
fn fresh_match_without_combo_scores_nothing() {
    // A pair matched on first sight scores only if it ends the game.
    let mut d = new_deck(3, 4, MatchRules::AnyColor, 2, false, 42);
    let groups = positions_by_rank(&d, 4);
    let group = groups.iter().find(|g| g.len() >= 2).unwrap();
    d.play(group[0]);
    d.play(group[1]);
    assert_eq!(d.get_owner(group[0]), 1);
    assert_eq!(d.scores[0], 0);
    assert_eq!(d.scores[1], 0);
}

#[test]
fn winner_is_first_player_with_top_score() {
    // Play a two-player game to the end and check the declared winner
    // against the scores, ties falling to the lower id.
    for seed in 0..20u64 {
        let mut d = new_deck(3, 3, MatchRules::AnyColor, 2, false, seed);
        while d.outcome().is_none() {
            let avail = d.available_moves();
            d.play(avail[0]);
            if d.outcome().is_some() {
                break;
            }
            let avail = d.available_moves();
            // Prefer a matching partner if one is open, else the first.
            let first = d.opened[0];
            let partner = avail
                .iter()
                .copied()
                .find(|&i| d.get_card(i) % 3 == d.get_card(first) % 3);
            d.play(partner.unwrap_or(avail[0]));
        }
        let w = d.outcome().unwrap() as usize;
        let best = d.scores.iter().max().unwrap();
        assert_eq!(d.scores[w], *best);
        for p in 0..w {
            assert!(d.scores[p] < *best);
        }
    }
}

#[test]
fn init_rejects_bad_parameters() {
    let mut rng = GameRng::from_seed(0);
    let m = mode(MatchRules::AnyColor, false, true);
    assert_eq!(Deck::init(0, 4, m, 1, &mut rng).unwrap_err(), InitError::ZeroPairs);
    assert_eq!(Deck::init(3, 0, m, 1, &mut rng).unwrap_err(), InitError::ZeroRanks);
    assert_eq!(
        Deck::init(3, 0x1000_0000, m, 1, &mut rng).unwrap_err(),
        InitError::RanksTooLarge
    );
    assert_eq!(Deck::init(9, 4, m, 1, &mut rng).unwrap_err(), InitError::TooManyPairs);
    assert_eq!(Deck::init(3, 4, m, 0, &mut rng).unwrap_err(), InitError::BadPlayerCount);
    assert_eq!(Deck::init(3, 4, m, 4, &mut rng).unwrap_err(), InitError::BadPlayerCount);
    // Four-way rules carry four cells per rank, so more pairs fit.
    let m4 = mode(MatchRules::TwoDecks, false, true);
    assert!(Deck::init(9, 4, m4, 1, &mut rng).is_ok());
    assert_eq!(Deck::init(17, 4, m4, 1, &mut rng).unwrap_err(), InitError::TooManyPairs);
}

#[test]
fn init_error_descriptions() {
    assert_eq!(InitError::ZeroPairs.describe(), "requested zero pairs");
    assert_eq!(
        InitError::TooManyPairs.describe(),
        "more pairs than the ranks can carry under this rule"
    );
    assert_eq!(PlayError::Finished.describe(), "the game is already over");
    assert_eq!(PlayError::OutOfBounds.describe(), "no such cell on the board");
    assert_eq!(PlayError::Unavailable.describe(), "that cell cannot be played now");
}

#[test]
fn fresh_deck_state() {
    let d = new_deck(3, 4, MatchRules::SameColor, 2, false, 7);
    assert_eq!(d.len(), 6);
    assert_eq!(d.player(), 0);
    assert_eq!(d.outcome(), None);
    assert_eq!(d.opened.len(), 0);
    assert_eq!(d.scores, vec![0, 0]);
    for i in 0..d.len() {
        assert_eq!(d.get_owner(i), 0);
        assert_eq!(d.get_count(i), 0);
        assert!(!d.is_revealed(i));
        assert!(d.is_available_move(i));
    }
    assert_eq!(d.next_player(), 1);
}

#[test]
fn phase_alternates_with_flips() {
    let mut d = new_deck(2, 1, MatchRules::Zebra, 2, false, 5);
    assert_eq!(d.phase(), FlipPhase::WaitingForFirstFlip);
    d.play(0);
    assert_eq!(d.phase(), FlipPhase::WaitingForSecondFlip);
    d.play(1);
    assert_eq!(d.phase(), FlipPhase::WaitingForFirstFlip);
}

/// Finds two distinct legal moves that match, by probing clones.
fn find_matching_pair(d: &Deck) -> Option<(usize, usize)> {
    let avail = d.available_moves();
    for &i in &avail {
        for &j in &avail {
            if i != j {
                let mut probe = d.clone();
                probe.play(i);
                probe.play(j);
                if probe.get_owner(i) > 0 {
                    return Some((i, j));
                }
            }
        }
    }
    None
}

#[test]
fn every_rule_plays_to_completion() {
    // Whatever the rule and the shuffle, the board never gets stuck:
    // at every pair boundary some two legal moves match, so the game
    // can always be driven to an outcome.
    let rules = [
        MatchRules::AnyColor,
        MatchRules::SameColor,
        MatchRules::Zebra,
        MatchRules::TwoDecks,
        MatchRules::CheckeredDeck,
    ];
    for rule in rules {
        for seed in 0..8u64 {
            let mut d = new_deck(3, 4, rule, 2, false, seed);
            while d.outcome().is_none() {
                let pair = find_matching_pair(&d);
                let (i, j) = pair.expect("a matchable pair must always exist");
                d.play(i);
                d.play(j);
                assert!(d.get_owner(i) > 0 && d.get_owner(j) > 0);
            }
            for i in 0..d.len() {
                assert!(d.is_revealed(i));
            }
        }
    }
}
