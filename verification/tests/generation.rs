use memory::{Deck, GameRng, MatchRules, Mode};
use std::collections::HashMap;

fn layout(pairs: u32, ranks: u32, rule: MatchRules, full_plate: bool, seed: u64) -> Vec<u32> {
    let mut rng = GameRng::from_seed(seed);
    let mode = Mode { rule, combo: false, full_plate, duel: !full_plate };
    let d = Deck::init(pairs, ranks, mode, 2, &mut rng).unwrap();
    (0..d.len()).map(|i| d.get_card(i)).collect()
}

fn counts(cards: &[u32]) -> HashMap<u32, usize> {
    let mut m = HashMap::new();
    for &c in cards {
        *m.entry(c).or_insert(0) += 1;
    }
    m
}

#[test]
fn any_color_layouts_pair_by_rank() {
    for seed in 0..40u64 {
        let cards = layout(5, 6, MatchRules::AnyColor, true, seed);
        assert_eq!(cards.len(), 10);
        let mut by_rank = [0usize; 6];
        for &c in &cards {
            assert!(c < 4 * 6);
            by_rank[(c % 6) as usize] += 1;
        }
        for n in by_rank {
            assert_eq!(n % 2, 0, "each rank must hold whole pairs");
        }
    }
}

#[test]
fn same_color_layouts_pair_by_rank_and_color() {
    for seed in 0..40u64 {
        let cards = layout(5, 6, MatchRules::SameColor, true, seed);
        let mut by_group: HashMap<(u32, u32), usize> = HashMap::new();
        for &c in &cards {
            assert!(c < 4 * 6);
            *by_group.entry((c % 6, (c / 6) % 2)).or_insert(0) += 1;
        }
        for (_, n) in by_group {
            assert_eq!(n % 2, 0, "each rank-and-colour group must hold whole pairs");
        }
    }
}

#[test]
fn zebra_layouts_balance_the_colors_of_each_rank() {
    for seed in 0..40u64 {
        let cards = layout(5, 6, MatchRules::Zebra, true, seed);
        let mut even = [0usize; 6];
        let mut odd = [0usize; 6];
        for &c in &cards {
            assert!(c < 4 * 6);
            if (c / 6) % 2 == 0 {
                even[(c % 6) as usize] += 1;
            } else {
                odd[(c % 6) as usize] += 1;
            }
        }
        for r in 0..6 {
            assert_eq!(even[r], odd[r], "zebra pairs are always of opposite colours");
        }
    }
}

#[test]
fn two_decks_layouts_duplicate_each_code() {
    for seed in 0..40u64 {
        let cards = layout(9, 5, MatchRules::TwoDecks, true, seed);
        assert_eq!(cards.len(), 18);
        for (&c, &n) in counts(&cards).iter() {
            assert!(c < 4 * 5);
            assert_eq!(n % 2, 0, "every code must come as identical copies");
        }
    }
}

#[test]
fn checkered_layouts_pair_codes_with_their_offset_copy() {
    let ranks = 5u32;
    for seed in 0..40u64 {
        let cards = layout(9, ranks, MatchRules::CheckeredDeck, true, seed);
        let m = counts(&cards);
        for (&c, &n) in m.iter() {
            assert!(c < 8 * ranks);
            assert_eq!(n, 1, "no code repeats; the pair is the offset copy");
            let partner = if c < 4 * ranks { c + 4 * ranks } else { c - 4 * ranks };
            assert_eq!(m.get(&partner), Some(&1));
        }
    }
}

#[test]
fn half_plate_layouts_hold_the_same_cards() {
    // A half-plate board shuffles its halves independently but still
    // lays out one pairable multiset of codes.
    for seed in 0..40u64 {
        let cards = layout(5, 6, MatchRules::AnyColor, false, seed);
        assert_eq!(cards.len(), 10);
        let mut by_rank = [0usize; 6];
        for &c in &cards {
            assert!(c < 4 * 6);
            by_rank[(c % 6) as usize] += 1;
        }
        for n in by_rank {
            assert_eq!(n % 2, 0);
        }
    }
}

#[test]
fn single_rank_any_color_uses_distinct_suits() {
    // Four cells of one rank carry four different suits; a generator
    // that ignored its suit draws could not produce this.
    for seed in 0..40u64 {
        let cards = layout(2, 1, MatchRules::AnyColor, true, seed);
        let mut seen = [false; 4];
        for &c in &cards {
            assert!(c < 4);
            assert!(!seen[c as usize], "suits of one rank are drawn without replacement");
            seen[c as usize] = true;
        }
    }
}

#[test]
fn layouts_differ_between_seeds() {
    // Not a certainty for any two fixed seeds, but across many seeds a
    // real shuffle must produce at least two different orders.
    let first = layout(5, 6, MatchRules::AnyColor, true, 0);
    assert!((1..50u64).any(|s| layout(5, 6, MatchRules::AnyColor, true, s) != first));
}
