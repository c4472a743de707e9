//! Plain data carried around the engine by its callers: board
//! coordinates, cell indices, card values, players, and the events a
//! turn driver reacts to.

use vstd::prelude::*;
use crate::text::{dec_chars, u64_dec};
use crate::rng::GameRng;

verus! {

/// A position on the rendered board grid.
#[derive(Debug, Copy, Clone, PartialEq, Eq, Structural, Hash)]
pub struct Coordinates {
    pub x: u16,
    pub y: u16,
}

impl Coordinates {
    /// Builds coordinates from a pair.
    pub fn from_pair(p: (u16, u16)) -> (r: Self)
        ensures
            r.x == p.0 && r.y == p.1,
    {
        Coordinates { x: p.0, y: p.1 }
    }

    /// Componentwise sum.
    pub fn add(self, rhs: Self) -> (r: Self)
        requires
            self.x + rhs.x <= u16::MAX,
            self.y + rhs.y <= u16::MAX,
        ensures
            r.x == self.x + rhs.x,
            r.y == self.y + rhs.y,
    {
        Coordinates { x: self.x + rhs.x, y: self.y + rhs.y }
    }

    /// Componentwise difference, stopping at zero.
    pub fn sub(self, rhs: Self) -> (r: Self)
        ensures
            r.x == if self.x >= rhs.x {
                (self.x - rhs.x) as u16
            } else {
                0u16
            },
            r.y == if self.y >= rhs.y {
                (self.y - rhs.y) as u16
            } else {
                0u16
            },
    {
        Coordinates {
            x: if self.x >= rhs.x {
                self.x - rhs.x
            } else {
                0
            },
            y: if self.y >= rhs.y {
                self.y - rhs.y
            } else {
                0
            },
        }
    }
}

/// The flat index of a cell on the board.
#[derive(Debug, Copy, Clone, PartialEq, Eq, Structural, Hash, PartialOrd, Ord)]
pub struct Idx(pub u16);

/// The face value shown on a card.
#[derive(Debug, Copy, Clone, PartialEq, Eq, Structural)]
pub struct Card(pub u16);

impl Card {
    /// The card's face value.
    pub fn val(&self) -> (r: u16)
        ensures
            r == self.0,
    {
        let Card(v) = *self;
        v
    }

    /// The card's value rendered for a console dump.
    pub fn console_output(&self) -> (s: String)
        ensures
            s@ == dec_chars(self.0 as int),
    {
        u64_dec(self.val() as u64)
    }
}

/// A human player: id and completed turns.
#[derive(Debug, Copy, Clone, PartialEq, Eq, Structural)]
pub struct Flesh(pub u8, pub u8);

/// A bot player: id and completed turns.
#[derive(Debug, Copy, Clone, PartialEq, Eq, Structural)]
pub struct Bolts(pub u8, pub u8);

/// What every kind of player can do.
pub trait PlayerOps {
    /// Records one more completed turn, up to the counter's capacity.
    fn inc_turn(&mut self);
}

impl PlayerOps for Flesh {
    fn inc_turn(&mut self)
        ensures
            final(self).0 == old(self).0,
            final(self).1 == if old(self).1 < u8::MAX {
                (old(self).1 + 1) as u8
            } else {
                old(self).1
            },
    {
        if self.1 < u8::MAX {
            self.1 = self.1 + 1;
        }
    }
}

impl PlayerOps for Bolts {
    fn inc_turn(&mut self)
        ensures
            final(self).0 == old(self).0,
            final(self).1 == if old(self).1 < u8::MAX {
                (old(self).1 + 1) as u8
            } else {
                old(self).1
            },
    {
        if self.1 < u8::MAX {
            self.1 = self.1 + 1;
        }
    }
}

/// A participant of a game: flesh or bolts.
#[derive(Debug, Copy, Clone, PartialEq, Eq, Structural)]
pub enum Player {
    Flesh(Flesh),
    Bolts(Bolts),
}

impl Player {
    /// The id and turn counter of the player.
    pub fn deref(&self) -> (r: (u8, u8))
        ensures
            r == self.parts(),
    {
        match self {
            Player::Flesh(Flesh(x, y)) => (*x, *y),
            Player::Bolts(Bolts(x, y)) => (*x, *y),
        }
    }

    /// The id and turn counter, as a spec-level pair.
    pub open spec fn parts(self) -> (u8, u8) {
        match self {
            Player::Flesh(Flesh(x, y)) => (x, y),
            Player::Bolts(Bolts(x, y)) => (x, y),
        }
    }

    /// The player's id.
    pub fn id(&self) -> (r: u8)
        ensures
            r == self.parts().0,
    {
        match self {
            Player::Flesh(Flesh(x, _)) => *x,
            Player::Bolts(Bolts(x, _)) => *x,
        }
    }

    /// Whether the player is a bot.
    pub fn is_bot(&self) -> (r: bool)
        ensures
            r == ((*self) is Bolts),
    {
        match self {
            Player::Flesh(_) => false,
            Player::Bolts(_) => true,
        }
    }
}

impl PlayerOps for Player {
    fn inc_turn(&mut self)
        ensures
            final(self).parts().0 == old(self).parts().0,
            ((*final(self)) is Bolts) == ((*old(self)) is Bolts),
            final(self).parts().1 == if old(self).parts().1 < u8::MAX {
                (old(self).parts().1 + 1) as u8
            } else {
                old(self).parts().1
            },
    {
        match self {
            Player::Flesh(f) => f.inc_turn(),
            Player::Bolts(b) => b.inc_turn(),
        }
    }
}


/// How many of the players are bots.
pub open spec fn num_bots(s: Seq<Player>) -> int
    decreases s.len(),
{
    if s.len() == 0 {
        0
    } else {
        num_bots(s.drop_last()) + if s.last() is Bolts {
            1int
        } else {
            0int
        }
    }
}

/// Builds the roster of a game: `humans` humans and `bots` bots in a
/// random order, ids numbered in seating order, except that the first
/// seat is forced to a human or a bot as `human_first` says.
pub fn create_players(humans: u8, bots: u8, human_first: bool, rng: &mut GameRng) -> (r: Vec<
    Player,
>)
    requires
        1 <= humans as int + bots as int <= u8::MAX as int,
        human_first ==> humans >= 1,
        !human_first ==> bots >= 1,
    ensures
        r@.len() == humans as int + bots as int,
        num_bots(r@) == bots as int,
        forall|i: int|
            0 <= i < r@.len() ==> (#[trigger] r@[i].parts()) == (i as u8, 0u8),
        (r@[0] is Bolts) == !human_first,
{
    let mut h = humans;
    let mut b = bots;
    let mut players: Vec<Player> = Vec::new();
    let mut idx: u8 = 0;
    while h > 0 || b > 0
        invariant
            h <= humans,
            b <= bots,
            humans as int + bots as int <= u8::MAX as int,
            idx as int == (humans as int - h as int) + (bots as int - b as int),
            players@.len() == idx as int,
            num_bots(players@) == bots as int - b as int,
            forall|i: int|
                0 <= i < players@.len() ==> (#[trigger] players@[i].parts()) == (i as u8, 0u8),
            idx == 0 ==> (human_first ==> humans >= 1) && (!human_first ==> bots >= 1),
            idx > 0 ==> (players@[0] is Bolts) == !human_first,
        decreases h + b,
    {
        let take_bot = if idx == 0 {
            !human_first
        } else {
            !(rng.next_below((h + b) as usize) < h as usize)
        };
        let ghost before = players@;
        if take_bot {
            players.push(Player::Bolts(Bolts(idx, 0)));
            b = b - 1;
        } else {
            players.push(Player::Flesh(Flesh(idx, 0)));
            h = h - 1;
        }
        proof {
            assert(players@.drop_last() =~= before);
        }
        idx = idx + 1;
    }
    players
}

/// A request to mark the tile at some coordinates.
#[derive(Debug, Copy, Clone)]
pub struct TileMarkEvent(pub Coordinates);

/// A card was flipped face up.
#[derive(Debug, Copy, Clone)]
pub struct CardFlipEvent(pub Idx);

/// Every pair has been resolved; the game is over.
#[derive(Debug, Copy, Clone)]
pub struct DeckCompletedEvent;

/// A trap card went off.
#[derive(Debug, Copy, Clone)]
pub struct BombExplosionEvent;

} // verus!
