use memory::components::{
    create_players, Bolts, Card, CardFlipEvent, Coordinates, Flesh, Idx, TileMarkEvent,
};
use memory::deck::outcome_text;
use memory::{Deck, GameRng, MatchRules, Mode, Player, PlayerOps};

#[test]
fn card_val_and_console_output() {
    let c = Card(37);
    assert_eq!(c.val(), 37);
    assert_eq!(c.console_output(), "37");
    assert_eq!(Card(0).console_output(), "0");
    assert_eq!(Card(60000).console_output(), "60000");
}

#[test]
fn coordinates_arithmetic() {
    let a = Coordinates::from_pair((3, 7));
    let b = Coordinates::from_pair((10, 2));
    let s = a.add(b);
    assert_eq!((s.x, s.y), (13, 9));
    let d = a.sub(b);
    assert_eq!((d.x, d.y), (0, 5));
    assert_eq!(a, Coordinates { x: 3, y: 7 });
}

#[test]
fn events_carry_their_payload() {
    let m = TileMarkEvent(Coordinates { x: 1, y: 2 });
    assert_eq!(m.0.x, 1);
    let f = CardFlipEvent(Idx(9));
    assert_eq!(f.0, Idx(9));
    assert!(Idx(3) < Idx(4));
}

#[test]
fn players_report_kind_and_id() {
    let mut h = Player::Flesh(Flesh(0, 0));
    let b = Player::Bolts(Bolts(1, 5));
    assert!(!h.is_bot());
    assert!(b.is_bot());
    assert_eq!(h.id(), 0);
    assert_eq!(b.deref(), (1, 5));
    h.inc_turn();
    h.inc_turn();
    assert_eq!(h.deref(), (0, 2));
}

#[test]
fn rosters_respect_counts_and_first_seat() {
    let mut rng = GameRng::from_seed(4);
    for human_first in [true, false] {
        let players = create_players(2, 3, human_first, &mut rng);
        assert_eq!(players.len(), 5);
        assert_eq!(players.iter().filter(|p| p.is_bot()).count(), 3);
        for (i, p) in players.iter().enumerate() {
            assert_eq!(p.deref(), (i as u8, 0));
        }
        assert_eq!(players[0].is_bot(), !human_first);
    }
    let solo = create_players(1, 0, true, &mut rng);
    assert_eq!(solo.len(), 1);
    assert!(!solo[0].is_bot());
}

#[test]
fn mode_default_and_texts() {
    let m = Mode::default();
    assert_eq!(m.rule, MatchRules::Zebra);
    assert!(m.combo && m.full_plate && m.duel);
    assert_eq!(m.example(), "2red == 2black");
    assert_eq!(
        m.desc(),
        "Rule: Pairs need to be of same rank but color should be of opposite\n\
         Combo: Allowed\nAccess:Full Plate"
    );
    let half = Mode { rule: MatchRules::AnyColor, combo: false, full_plate: false, duel: false };
    assert_eq!(half.example(), "2 == 2");
    assert_eq!(
        half.desc(),
        "Rule: Pairs need only to be of same rank\nCombo: One Flip per turn\nAccess:Half Plate"
    );
}

#[test]
fn deck_params_per_rule_and_level() {
    let any = Mode { rule: MatchRules::AnyColor, combo: false, full_plate: true, duel: false };
    assert_eq!(any.deck_params(0), (3, 4));
    assert_eq!(any.deck_params(2), (13, 8));
    assert_eq!(any.deck_params(5), (28, 14));
    let two = Mode { rule: MatchRules::TwoDecks, combo: false, full_plate: true, duel: false };
    assert_eq!(two.deck_params(0), (6, 4));
    assert_eq!(two.deck_params(5), (56, 14));
    // The derived parameters always satisfy construction.
    let mut rng = GameRng::from_seed(8);
    for level in 0..=5u8 {
        let (pairs, ranks) = two.deck_params(level);
        assert!(Deck::init(pairs, ranks, two, 2, &mut rng).is_ok());
    }
}

#[test]
fn console_output_draws_the_grid() {
    let mut rng = GameRng::from_seed(21);
    let m = Mode { rule: MatchRules::AnyColor, combo: false, full_plate: true, duel: false };
    let d = Deck::init(2, 2, m, 1, &mut rng).unwrap();
    let cards: Vec<u32> = (0..4).map(|i| d.get_card(i)).collect();
    let expected = format!(
        "|{:>3}{:>3}|\n|{:>3}{:>3}|\n",
        cards[0], cards[1], cards[2], cards[3]
    );
    assert_eq!(d.console_output(), expected);

    // Six cells round to a grid two wide and three tall.
    let d = Deck::init(3, 4, m, 1, &mut rng).unwrap();
    let cards: Vec<u32> = (0..6).map(|i| d.get_card(i)).collect();
    let expected = format!(
        "|{:>3}{:>3}|\n|{:>3}{:>3}|\n|{:>3}{:>3}|\n",
        cards[0], cards[1], cards[2], cards[3], cards[4], cards[5]
    );
    assert_eq!(d.console_output(), expected);
}

#[test]
fn outcome_rendered_for_the_first_human() {
    assert_eq!(outcome_text(None, true), "None");
    assert_eq!(outcome_text(Some(0), true), "You Won");
    assert_eq!(outcome_text(Some(1), true), "You Lost");
    assert_eq!(outcome_text(Some(0), false), "You Lost");
}
