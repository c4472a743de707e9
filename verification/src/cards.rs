//! Match rules, game mode flags, and the packed card-code arithmetic.
//!
//! A card code is the integer `suit * ranks + rank`, where `ranks` is the
//! number of distinct ranks the deck was generated with. Suits `0..4` are
//! the four ordinary suits; suit parity is the suit's colour. The
//! checkered-deck rule additionally uses suits `4..8` for the second
//! copy of the deck, which carries a different card back.

use vstd::prelude::*;

verus! {

/// The rule deciding which two face-up cards count as a match.
#[derive(Debug, Clone, Copy, PartialEq, Eq, Structural)]
pub enum MatchRules {
    /// Pairs need only be of the same rank.
    AnyColor,
    /// Pairs must share rank and suit colour.
    SameColor,
    /// Pairs must share rank but be of opposite colours.
    Zebra,
    /// Pairs must be the exact same card, drawn from two identical decks.
    TwoDecks,
    /// Like `TwoDecks`, but the second copy has a different card back.
    CheckeredDeck,
}

/// The full mode of a game: the match rule plus the layout and turn flags.
#[derive(Debug, Clone, Copy, PartialEq, Eq, Structural)]
pub struct Mode {
    pub rule: MatchRules,
    /// A player who finds a match keeps the turn.
    pub combo: bool,
    /// Shuffle the whole layout as one pool; otherwise the two halves of
    /// the board are shuffled independently.
    pub full_plate: bool,
    /// Two-sided duel layout.
    pub duel: bool,
}

impl Default for Mode {
    /// The default mode mirrors the game's starting configuration.
    fn default() -> (r: Self)
        ensures
            r == (Mode { rule: MatchRules::Zebra, combo: true, full_plate: true, duel: true }),
    {
        Mode { rule: MatchRules::Zebra, combo: true, full_plate: true, duel: true }
    }
}

/// Largest supported rank count: keeps every card code, including the
/// checkered deck's offset copies below `8 * ranks`, within `u32`.
pub const MAX_RANKS: u32 = 0x0FFF_FFFF;

/// How many cells of each rank the generator may place: two-card rules
/// get one slot per pair, four-way rules get twice as many distinct
/// card identities.
pub open spec fn suits_per_rank(rule: MatchRules) -> int {
    match rule {
        MatchRules::TwoDecks | MatchRules::CheckeredDeck => 4,
        _ => 2,
    }
}

/// Exec twin of [`suits_per_rank`].
pub fn suits_per_rank_exec(rule: MatchRules) -> (r: u32)
    ensures
        r as int == suits_per_rank(rule),
{
    match rule {
        MatchRules::TwoDecks | MatchRules::CheckeredDeck => 4,
        _ => 2,
    }
}

/// Card codes generated under `rule` lie below this bound.
pub open spec fn code_limit(rule: MatchRules, ranks: int) -> int {
    match rule {
        MatchRules::CheckeredDeck => 8 * ranks,
        _ => 4 * ranks,
    }
}

/// The rank encoded in a card code.
pub open spec fn rank_of(ranks: int, code: int) -> int {
    code % ranks
}

/// The suit encoded in a card code.
pub open spec fn suit_of(ranks: int, code: int) -> int {
    code / ranks
}

/// The colour of a suit: suits of equal parity are the same colour.
pub open spec fn color_of(ranks: int, code: int) -> int {
    suit_of(ranks, code) % 2
}

/// The card code for a suit and a rank.
pub open spec fn code_of(ranks: int, suit: int, rank: int) -> int {
    suit * ranks + rank
}

/// Whether two card codes match under `rule`, for a deck of `ranks` ranks.
///
/// * `AnyColor`: equal ranks.
/// * `Zebra`: equal ranks, and the two cards must not be two distinct
///   suits of the same colour.
/// * `SameColor`: equal ranks and equal suit colours.
/// * `TwoDecks`: the exact same card code.
/// * `CheckeredDeck`: equal codes once the second copy's back-design
///   offset of four suits is discarded.
pub open spec fn codes_match(rule: MatchRules, ranks: int, a: int, b: int) -> bool {
    let eq = rank_of(ranks, a) == rank_of(ranks, b);
    match rule {
        MatchRules::AnyColor => eq,
        MatchRules::Zebra => eq && !(suit_of(ranks, a) != suit_of(ranks, b)
            && color_of(ranks, a) == color_of(ranks, b)),
        MatchRules::SameColor => eq && color_of(ranks, a) == color_of(ranks, b),
        MatchRules::TwoDecks => a == b,
        MatchRules::CheckeredDeck => a % (4 * ranks) == b % (4 * ranks),
    }
}

/// Evaluates the match predicate on two concrete card codes.
pub fn codes_match_exec(rule: MatchRules, ranks: u32, a: u32, b: u32) -> (r: bool)
    requires
        1 <= ranks <= MAX_RANKS,
    ensures
        r == codes_match(rule, ranks as int, a as int, b as int),
{
    let eq = a % ranks == b % ranks;
    match rule {
        MatchRules::AnyColor => eq,
        MatchRules::Zebra => {
            let sa = a / ranks;
            let sb = b / ranks;
            eq && !(sa != sb && sa % 2 == sb % 2)
        },
        MatchRules::SameColor => eq && (a / ranks) % 2 == (b / ranks) % 2,
        MatchRules::TwoDecks => a == b,
        MatchRules::CheckeredDeck => a % (4 * ranks) == b % (4 * ranks),
    }
}


/// The prose description of a match rule.
pub open spec fn rule_desc_chars(rule: MatchRules) -> Seq<char> {
    match rule {
        MatchRules::AnyColor => "Pairs need only to be of same rank"@,
        MatchRules::SameColor => "Pairs need to be of same rank and color"@,
        MatchRules::Zebra => "Pairs need to be of same rank but color should be of opposite"@,
        MatchRules::TwoDecks => "Pairs need to be of same rank and suite"@,
        MatchRules::CheckeredDeck => "Pairs need to be of same rank and suite,\ncards have different backs for easy differentiation"@,
    }
}

/// The full description of a mode: rule, combo setting and plate
/// layout, one line each.
pub open spec fn mode_desc_chars(m: Mode) -> Seq<char> {
    "Rule: "@ + rule_desc_chars(m.rule) + "\nCombo: "@ + (if m.combo {
        "Allowed"@
    } else {
        "One Flip per turn"@
    }) + "\nAccess:"@ + (if m.full_plate {
        "Full Plate"@
    } else {
        "Half Plate"@
    })
}

/// The example shown beside each rule.
pub open spec fn rule_example_chars(rule: MatchRules) -> Seq<char> {
    match rule {
        MatchRules::AnyColor => "2 == 2"@,
        MatchRules::SameColor => "2red == 2red"@,
        MatchRules::Zebra => "2red == 2black"@,
        MatchRules::TwoDecks => "2redHearts == 2redHearts"@,
        MatchRules::CheckeredDeck => "2redHearts == 2redHearts"@,
    }
}

/// Pairs per deck at difficulty zero.
pub open spec fn deck_base(rule: MatchRules) -> int {
    match rule {
        MatchRules::TwoDecks | MatchRules::CheckeredDeck => 6,
        _ => 3,
    }
}

/// Additional pairs per difficulty level.
pub open spec fn deck_jump(rule: MatchRules) -> int {
    match rule {
        MatchRules::TwoDecks | MatchRules::CheckeredDeck => 10,
        _ => 5,
    }
}

impl Mode {
    /// Describes the mode for a menu, one line per aspect.
    pub fn desc(&self) -> (s: String)
        ensures
            s@ == mode_desc_chars(*self),
    {
        let mut s = String::new();
        s.append("Rule: ");
        s.append(
            match self.rule {
                MatchRules::AnyColor => "Pairs need only to be of same rank",
                MatchRules::SameColor => "Pairs need to be of same rank and color",
                MatchRules::Zebra => "Pairs need to be of same rank but color should be of opposite",
                MatchRules::TwoDecks => "Pairs need to be of same rank and suite",
                MatchRules::CheckeredDeck => "Pairs need to be of same rank and suite,\ncards have different backs for easy differentiation",
            },
        );
        s.append("\nCombo: ");
        s.append(
            if self.combo {
                "Allowed"
            } else {
                "One Flip per turn"
            },
        );
        s.append("\nAccess:");
        s.append(
            if self.full_plate {
                "Full Plate"
            } else {
                "Half Plate"
            },
        );
        proof {
            assert(s@ =~= mode_desc_chars(*self));
        }
        s
    }

    /// A one-line example of a matching pair under the mode's rule.
    pub fn example(&self) -> (r: &'static str)
        ensures
            r@ == rule_example_chars(self.rule),
    {
        match self.rule {
            MatchRules::AnyColor => "2 == 2",
            MatchRules::SameColor => "2red == 2red",
            MatchRules::Zebra => "2red == 2black",
            MatchRules::TwoDecks => "2redHearts == 2redHearts",
            MatchRules::CheckeredDeck => "2redHearts == 2redHearts",
        }
    }

    /// The deck parameters for a difficulty level: how many pairs to
    /// lay out and how many distinct ranks to draw them from. For every
    /// level up to five the pair count is satisfiable under the rule's
    /// suit arithmetic.
    pub fn deck_params(&self, level: u8) -> (r: (u32, u32))
        requires
            level <= 5,
        ensures
            r.0 as int == deck_base(self.rule) + level as int * deck_jump(self.rule),
            r.1 as int == 4 + 2 * level as int,
            1 <= r.0,
            1 <= r.1 <= MAX_RANKS,
            r.0 as int <= suits_per_rank(self.rule) * r.1 as int,
    {
        let (base, jump): (u32, u32) = match self.rule {
            MatchRules::TwoDecks | MatchRules::CheckeredDeck => (6, 10),
            _ => (3, 5),
        };
        (base + level as u32 * jump, 4 + 2 * level as u32)
    }
}
} // verus!
