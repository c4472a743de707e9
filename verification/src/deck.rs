//! The match engine: a generated layout plus the live game state, with
//! `play` as the only mutating entry point.

use vstd::prelude::*;
use crate::cards::{MatchRules, Mode, MAX_RANKS, suits_per_rank, code_limit, codes_match,
    codes_match_exec};
use crate::gen::{generate, layout_pairable};
use crate::rng::GameRng;
use crate::text::{cell_chars, grid_rows, grid_width, isqrt64, lemma_isqrt_spec, row_chars,
    rows_chars, u64_dec};

verus! {

/// One cell of the board: its card, its owner and how often it has been
/// flipped face up. The owner is `0` while the cell is in play and
/// `p + 1` once player `p` has matched it; a cell with an owner can
/// never be flipped again.
#[derive(Debug, Clone, Copy, PartialEq, Eq, Structural)]
pub struct Cell {
    pub card: u32,
    pub owner: u8,
    pub count: u32,
}

/// The mathematical state of a deck, the value that every contract of
/// [`Deck`] speaks about.
#[verifier::ext_equal]
pub ghost struct DeckModel {
    pub mode: Mode,
    pub ranks: u32,
    pub cells: Seq<Cell>,
    pub current: u8,
    pub player_count: u8,
    pub outcome: Option<u8>,
    pub opened: Seq<usize>,
    pub scores: Seq<u64>,
}

/// Every cell has been matched by someone.
pub open spec fn all_owned(cells: Seq<Cell>) -> bool {
    forall|i: int| 0 <= i < cells.len() ==> #[trigger] cells[i].owner > 0
}

/// A flip count grows by one until it saturates.
pub open spec fn inc_count(c: u32) -> u32 {
    if c < u32::MAX {
        (c + 1) as u32
    } else {
        c
    }
}

/// A score grows by `b` points until it saturates.
pub open spec fn add_score(a: u64, b: int) -> u64 {
    if a + b <= u64::MAX {
        (a + b) as u64
    } else {
        u64::MAX
    }
}

/// The winner: the first player holding the maximal score. On a tie for
/// the top score the lowest player id wins.
pub open spec fn winner_of(scores: Seq<u64>) -> int
    decreases scores.len(),
{
    if scores.len() <= 1 {
        0
    } else {
        let w = winner_of(scores.drop_last());
        if scores.last() > scores[w] {
            scores.len() - 1
        } else {
            w
        }
    }
}

/// The winner is a player index, holds the maximal score, and no earlier
/// player ties with it.
pub proof fn lemma_winner_bounds(scores: Seq<u64>)
    requires
        scores.len() >= 1,
    ensures
        0 <= winner_of(scores) < scores.len(),
        forall|j: int| 0 <= j < scores.len() ==> #[trigger] scores[j] <= scores[winner_of(scores)],
    decreases scores.len(),
{
    if scores.len() > 1 {
        let dl = scores.drop_last();
        lemma_winner_bounds(dl);
        let w = winner_of(scores);
        assert forall|j: int| 0 <= j < scores.len() implies #[trigger] scores[j] <= scores[w] by {
            if j < scores.len() - 1 {
                assert(dl[j] == scores[j]);
                assert(dl[j] <= dl[winner_of(dl)]);
            }
        }
    }
}

/// Whose turn comes after the current player's.
pub open spec fn next_of(s: DeckModel) -> u8 {
    (((s.current + 1) as int) % (s.player_count as int)) as u8
}

/// Whether `mv` is a legal move: the cell is unowned, and it is not the
/// single card currently lying face up.
pub open spec fn is_avail(s: DeckModel, mv: int) -> bool {
    &&& 0 <= mv < s.cells.len()
    &&& s.cells[mv].owner == 0
    &&& !(s.opened.len() == 1 && s.opened[0] as int == mv)
}

/// The legal moves below `n`, in increasing order.
pub open spec fn avail_seq(s: DeckModel, n: int) -> Seq<usize>
    decreases n,
{
    if n <= 0 {
        Seq::empty()
    } else {
        if is_avail(s, n - 1) {
            avail_seq(s, n - 1).push((n - 1) as usize)
        } else {
            avail_seq(s, n - 1)
        }
    }
}

/// The number of legal moves.
pub open spec fn count_avail(s: DeckModel) -> int {
    avail_seq(s, s.cells.len() as int).len() as int
}

impl DeckModel {
    /// The internal invariant of a deck. `init` establishes it and
    /// `play` preserves it.
    pub open spec fn wf(self) -> bool {
        &&& 1 <= self.ranks <= MAX_RANKS
        &&& 1 <= self.player_count <= 3
        &&& self.current < self.player_count
        &&& self.scores.len() == self.player_count as nat
        &&& self.cells.len() >= 2
        &&& self.cells.len() % 2 == 0
        &&& forall|i: int|
            0 <= i < self.cells.len() ==> (#[trigger] self.cells[i].card as int) < code_limit(
                self.mode.rule,
                self.ranks as int,
            ) && self.cells[i].owner <= self.player_count
        &&& self.opened.len() <= 2
        &&& forall|i: int| 0 <= i < self.opened.len() ==> (#[trigger] self.opened[i] as int)
            < self.cells.len()
        &&& (self.opened.len() == 2 ==> self.opened[0] != self.opened[1])
        &&& (self.opened.len() == 1 ==> self.cells[self.opened[0] as int].owner == 0)
        &&& (self.outcome is Some <==> all_owned(self.cells))
        &&& (match self.outcome {
            Some(w) => w < self.player_count,
            None => true,
        })
    }

    /// The codes laid out on the board.
    pub open spec fn cards(self) -> Seq<u32> {
        self.cells.map_values(|c: Cell| c.card)
    }
}

/// What one call of `play` does to the state.
///
/// A resolved pair is cleared away; the chosen cell is flipped (its
/// count grows). If it is the first cell of a pair nothing more
/// happens. Otherwise the match rule decides: on a match both cells go
/// to the current player, points equal to the two flip counts are
/// awarded if the game is over or the closing cell had been seen
/// before, the winner is declared when every cell is owned, and the
/// turn passes unless the mode grants a combo turn; on a mismatch the
/// turn simply passes.
pub open spec fn play_step(s: DeckModel, mv: usize) -> DeckModel {
    let base = if s.opened.len() == 2 {
        DeckModel { opened: Seq::empty(), ..s }
    } else {
        s
    };
    let c0 = base.cells[mv as int];
    let s1 = DeckModel {
        cells: base.cells.update(mv as int, Cell { count: inc_count(c0.count), ..c0 }),
        opened: base.opened.push(mv),
        ..base
    };
    if s1.opened.len() < 2 {
        s1
    } else {
        let a = s1.opened[0] as int;
        let b = mv as int;
        if codes_match(s.mode.rule, s.ranks as int, s1.cells[a].card as int, s1.cells[b].card as int) {
            let own = (s.current + 1) as u8;
            let cells2 = s1.cells.update(a, Cell { owner: own, ..s1.cells[a] }).update(
                b,
                Cell { owner: own, ..s1.cells[b] },
            );
            let done = all_owned(cells2);
            let scores2 = if done || cells2[b].count > 1 {
                s.scores.update(
                    s.current as int,
                    add_score(
                        s.scores[s.current as int],
                        cells2[a].count + cells2[b].count,
                    ),
                )
            } else {
                s.scores
            };
            let outcome2 = if done {
                Some(winner_of(scores2) as u8)
            } else {
                None
            };
            let current2 = if !s.mode.combo {
                next_of(s)
            } else {
                s.current
            };
            DeckModel { cells: cells2, scores: scores2, outcome: outcome2, current: current2, ..s1 }
        } else {
            DeckModel { current: next_of(s), ..s1 }
        }
    }
}

/// Why a deck could not be constructed.
#[derive(Debug, Clone, Copy, PartialEq, Eq, Structural)]
pub enum InitError {
    /// No pairs were requested.
    ZeroPairs,
    /// No ranks are available to draw from.
    ZeroRanks,
    /// The rank count exceeds [`MAX_RANKS`].
    RanksTooLarge,
    /// More pairs were requested than the ranks can carry under the
    /// rule's suit arithmetic.
    TooManyPairs,
    /// The player count must be between one and three.
    BadPlayerCount,
}

/// The first construction error that a parameter set runs into, if any.
pub open spec fn param_error(count: u32, ranks: u32, rule: MatchRules, players: u8) -> Option<
    InitError,
> {
    if count == 0 {
        Some(InitError::ZeroPairs)
    } else if ranks == 0 {
        Some(InitError::ZeroRanks)
    } else if ranks > MAX_RANKS {
        Some(InitError::RanksTooLarge)
    } else if count as int > suits_per_rank(rule) * ranks as int {
        Some(InitError::TooManyPairs)
    } else if players == 0 || players > 3 {
        Some(InitError::BadPlayerCount)
    } else {
        None
    }
}

/// Why a call of `try_play` was rejected.
#[derive(Debug, Clone, Copy, PartialEq, Eq, Structural)]
pub enum PlayError {
    /// The game already has an outcome.
    Finished,
    /// The cell index lies outside the board.
    OutOfBounds,
    /// The cell is owned, or is the single card already face up.
    Unavailable,
}

/// The two sub-states of a game in progress, tracked by how many
/// unresolved cards lie face up.
#[derive(Debug, Clone, Copy, PartialEq, Eq, Structural)]
pub enum FlipPhase {
    /// No unresolved card is face up; the next play opens a pair.
    WaitingForFirstFlip,
    /// One card is face up; the next play completes the pair.
    WaitingForSecondFlip,
}

/// The deck: the generated layout and all live game state.
#[derive(Debug, Clone)]
pub struct Deck {
    mode: Mode,
    ranks: u32,
    cells: Vec<Cell>,
    current: u8,
    player_count: u8,
    outcome: Option<u8>,
    /// The face-up, unresolved cells: empty, one freshly flipped cell,
    /// or the two cells of the pair resolved last.
    pub opened: Vec<usize>,
    /// Accumulated points, one entry per player.
    pub scores: Vec<u64>,
}

impl View for Deck {
    type V = DeckModel;

    closed spec fn view(&self) -> DeckModel {
        DeckModel {
            mode: self.mode,
            ranks: self.ranks,
            cells: self.cells@,
            current: self.current,
            player_count: self.player_count,
            outcome: self.outcome,
            opened: self.opened@,
            scores: self.scores@,
        }
    }
}

impl Deck {
    /// Generates a layout and sets up a fresh game: player zero to
    /// move, no cell owned or flipped, no points, no outcome. Rejects
    /// parameter sets that cannot produce a pairable layout.
    pub fn init(pair_count: u32, rank_count: u32, mode: Mode, players: u8, rng: &mut GameRng) -> (r:
        Result<Deck, InitError>)
        ensures
            match r {
                Ok(d) => {
                    &&& param_error(pair_count, rank_count, mode.rule, players) is None
                    &&& d@.wf()
                    &&& d@.mode == mode
                    &&& d@.ranks == rank_count
                    &&& d@.cells.len() == 2 * pair_count as nat
                    &&& forall|i: int|
                        0 <= i < d@.cells.len() ==> (#[trigger] d@.cells[i]).owner == 0
                            && d@.cells[i].count == 0
                    &&& layout_pairable(mode.rule, rank_count as int, d@.cards().to_multiset())
                    &&& (mode.rule == MatchRules::Zebra ==> forall|c: int| #[trigger]
                        crate::gen::mcount(d@.cards().to_multiset(), c) <= 1)
                    &&& d@.current == 0
                    &&& d@.player_count == players
                    &&& d@.outcome is None
                    &&& d@.opened.len() == 0
                    &&& d@.scores.len() == players as nat
                    &&& forall|i: int| 0 <= i < d@.scores.len() ==> #[trigger] d@.scores[i] == 0
                },
                Err(e) => Some(e) == param_error(pair_count, rank_count, mode.rule, players),
            },
    {
        if pair_count == 0 {
            return Err(InitError::ZeroPairs);
        }
        if rank_count == 0 {
            return Err(InitError::ZeroRanks);
        }
        if rank_count > MAX_RANKS {
            return Err(InitError::RanksTooLarge);
        }
        let spr = crate::cards::suits_per_rank_exec(mode.rule);
        if pair_count > spr * rank_count || pair_count / spr > rank_count {
            proof {
                assert(spr as int * rank_count as int <= 4 * MAX_RANKS as int) by (nonlinear_arith)
                    requires
                        spr as int <= 4,
                        0 < rank_count as int <= MAX_RANKS as int,
                ;
            }
            return Err(InitError::TooManyPairs);
        }
        if players == 0 || players > 3 {
            return Err(InitError::BadPlayerCount);
        }
        let codes = generate(pair_count, rank_count, mode.rule, mode.full_plate, rng);
        let mut cells: Vec<Cell> = Vec::new();
        let mut i: usize = 0;
        while i < codes.len()
            invariant
                i <= codes@.len(),
                cells@.len() == i,
                forall|j: int|
                    0 <= j < i ==> #[trigger] cells@[j] == (Cell {
                        card: codes@[j],
                        owner: 0,
                        count: 0,
                    }),
            decreases codes@.len() - i,
        {
            cells.push(Cell { card: codes[i], owner: 0, count: 0 });
            i = i + 1;
        }
        let mut scores: Vec<u64> = Vec::new();
        let mut p: usize = 0;
        while p < players as usize
            invariant
                p <= players as usize,
                scores@.len() == p,
                forall|j: int| 0 <= j < p ==> #[trigger] scores@[j] == 0,
            decreases players as usize - p,
        {
            scores.push(0);
            p = p + 1;
        }
        let d = Deck {
            mode,
            ranks: rank_count,
            cells,
            current: 0,
            player_count: players,
            outcome: None,
            opened: Vec::new(),
            scores,
        };
        proof {
            assert(d@.cards() =~= codes@);
            assert(!all_owned(d@.cells)) by {
                assert(d@.cells[0].owner == 0);
            }
        }
        Ok(d)
    }

    /// The player whose turn would come next.
    pub fn next_player(&self) -> (r: u8)
        requires
            self@.wf(),
        ensures
            r == next_of(self@),
    {
        (self.current + 1) % self.player_count
    }

    /// Whether the cell has been matched and permanently turned over.
    pub fn is_revealed(&self, mv: usize) -> (r: bool)
        requires
            mv < self@.cells.len(),
        ensures
            r == (self@.cells[mv as int].owner > 0),
    {
        self.cells[mv].owner > 0
    }

    /// Whether `play(mv)` is currently a legal move.
    pub fn is_available_move(&self, mv: usize) -> (r: bool)
        requires
            mv < self@.cells.len(),
        ensures
            r == is_avail(self@, mv as int),
    {
        if self.cells[mv].owner > 0 {
            false
        } else if self.opened.len() == 1 && self.opened[0] == mv {
            false
        } else {
            true
        }
    }

    /// Whose turn it is.
    pub fn player(&self) -> (r: u8)
        ensures
            r == self@.current,
    {
        self.current
    }

    /// The terminal outcome: `None` while the game is in progress, the
    /// winning player once every cell is owned.
    pub fn outcome(&self) -> (r: Option<u8>)
        ensures
            r == self@.outcome,
    {
        self.outcome
    }

    /// The owner of a cell: `0`, or one more than the player id.
    pub fn get_owner(&self, idx: usize) -> (r: u8)
        requires
            idx < self@.cells.len(),
        ensures
            r == self@.cells[idx as int].owner,
    {
        self.cells[idx].owner
    }

    /// The card code of a cell.
    pub fn get_card(&self, idx: usize) -> (r: u32)
        requires
            idx < self@.cells.len(),
        ensures
            r == self@.cells[idx as int].card,
    {
        self.cells[idx].card
    }

    /// How often a cell has been flipped face up.
    pub fn get_count(&self, idx: usize) -> (r: u32)
        requires
            idx < self@.cells.len(),
        ensures
            r == self@.cells[idx as int].count,
    {
        self.cells[idx].count
    }

    /// Whether the next play opens a pair or completes one.
    pub fn phase(&self) -> (r: FlipPhase)
        ensures
            r == (if self@.opened.len() == 1 {
                FlipPhase::WaitingForSecondFlip
            } else {
                FlipPhase::WaitingForFirstFlip
            }),
    {
        if self.opened.len() == 1 {
            FlipPhase::WaitingForSecondFlip
        } else {
            FlipPhase::WaitingForFirstFlip
        }
    }

    /// The number of cells on the board.
    pub fn len(&self) -> (r: usize)
        ensures
            r == self@.cells.len(),
    {
        self.cells.len()
    }

    /// All currently legal moves, in increasing cell order.
    pub fn available_moves(&self) -> (r: Vec<usize>)
        ensures
            r@ == avail_seq(self@, self@.cells.len() as int),
    {
        let mut r: Vec<usize> = Vec::new();
        let mut i: usize = 0;
        while i < self.cells.len()
            invariant
                i <= self@.cells.len(),
                r@ == avail_seq(self@, i as int),
            decreases self@.cells.len() - i,
        {
            let avail = if self.cells[i].owner > 0 {
                false
            } else if self.opened.len() == 1 && self.opened[0] == i {
                false
            } else {
                true
            };
            if avail {
                r.push(i);
            }
            i = i + 1;
        }
        r
    }

    /// Applies a legal move to a game that is still in progress; the
    /// new state is exactly [`play_step`] of the old.
    pub fn play(&mut self, mv: usize)
        requires
            old(self)@.wf(),
            old(self)@.outcome is None,
            is_avail(old(self)@, mv as int),
        ensures
            final(self)@.wf(),
            final(self)@ == play_step(old(self)@, mv),
    {
        proof {
            lemma_play_step_wf(old(self)@, mv);
        }
        if self.opened.len() == 2 {
            self.opened.clear();
        }
        let c0 = self.cells[mv];
        self.cells[mv] = Cell {
            card: c0.card,
            owner: c0.owner,
            count: if c0.count < u32::MAX {
                c0.count + 1
            } else {
                c0.count
            },
        };
        self.opened.push(mv);
        if self.opened.len() == 2 {
            let a = self.opened[0];
            let matched = codes_match_exec(
                self.mode.rule,
                self.ranks,
                self.cells[a].card,
                self.cells[mv].card,
            );
            if matched {
                let own = self.current + 1;
                let ca = self.cells[a];
                self.cells[a] = Cell { card: ca.card, owner: own, count: ca.count };
                let cb = self.cells[mv];
                self.cells[mv] = Cell { card: cb.card, owner: own, count: cb.count };
                let done = self.all_owned_exec();
                if done || self.cells[mv].count > 1 {
                    let pts = self.cells[a].count as u64 + self.cells[mv].count as u64;
                    let cur = self.current as usize;
                    let prev = self.scores[cur];
                    self.scores[cur] = if prev <= u64::MAX - pts {
                        prev + pts
                    } else {
                        u64::MAX
                    };
                }
                if done {
                    let w = self.winner_exec();
                    self.outcome = Some(w);
                }
                if !self.mode.combo {
                    self.current = (self.current + 1) % self.player_count;
                }
            } else {
                self.current = (self.current + 1) % self.player_count;
            }
        }
        proof {
            assert(self@ =~~= play_step(old(self)@, mv));
        }
    }


    /// Renders the board as a near-square grid of card codes, each cell
    /// three columns wide.
    pub fn console_output(&self) -> (s: String)
        requires
            self@.wf(),
        ensures
            s@ == deck_text(self@),
    {
        let n = self.cells.len();
        let r = isqrt64(n as u64);
        proof {
            lemma_isqrt_spec(n as int);
            assert(1 <= r as int && r as int <= n as int) by (nonlinear_arith)
                requires
                    r as int * r as int <= n as int,
                    (n as int) < (r as int + 1) * (r as int + 1),
                    n as int >= 2,
                    r as int >= 0,
            ;
        }
        let thr = r as u128 * r as u128 + r as u128 + 1;
        let w64: u64 = if n as u128 >= thr {
            r + 1
        } else {
            r
        };
        proof {
            assert(w64 as int == grid_width(n as int));
            assert(w64 as int <= n as int);
        }
        let w = w64 as usize;
        let ghost cards = self@.cards();
        let mut out = String::new();
        let mut j: usize = 0;
        let mut lo: usize = 0;
        while lo < n
            invariant
                self@.wf(),
                cards == self@.cards(),
                n == self@.cells.len(),
                1 <= w as int <= n as int,
                w as int == grid_width(n as int),
                lo <= n,
                j <= lo,
                lo == n ==> j as int == grid_rows(n as int, w as int),
                lo < n ==> lo as int == j as int * w as int,
                out@ == rows_chars(cards, w as int, j as int),
            decreases n - lo,
        {
            let rl = if n - lo < w {
                n - lo
            } else {
                w
            };
            out.append("|");
            proof {
                assert(out@ =~= rows_chars(cards, w as int, j as int) + row_chars(
                    cards,
                    lo as int,
                    0,
                ));
            }
            let mut t: usize = 0;
            while t < rl
                invariant
                    self@.wf(),
                    cards == self@.cards(),
                    n == self@.cells.len(),
                    lo + rl <= n,
                    t <= rl,
                    out@ == rows_chars(cards, w as int, j as int) + row_chars(
                        cards,
                        lo as int,
                        t as int,
                    ),
                decreases rl - t,
            {
                let card = self.cells[lo + t].card;
                proof {
                    assert(cards[lo as int + t as int] == card);
                }
                if card < 10 {
                    out.append("  ");
                } else if card < 100 {
                    out.append(" ");
                }
                let d = u64_dec(card as u64);
                out.append(d.as_str());
                proof {
                    assert(out@ =~= rows_chars(cards, w as int, j as int) + row_chars(
                        cards,
                        lo as int,
                        t as int + 1,
                    ));
                }
                t = t + 1;
            }
            out.append("|\n");
            proof {
                assert(out@ =~= rows_chars(cards, w as int, j as int + 1));
            }
            j = j + 1;
            if n - lo <= w {
                proof {
                    let j0 = j as int - 1;
                    assert((j0 + 1) * w as int == j0 * w as int + w as int) by (nonlinear_arith);
                    if n - lo == w {
                        vstd::arithmetic::div_mod::lemma_fundamental_div_mod_converse(
                            n as int,
                            w as int,
                            j as int,
                            0,
                        );
                    } else {
                        vstd::arithmetic::div_mod::lemma_fundamental_div_mod_converse(
                            n as int,
                            w as int,
                            j0,
                            n as int - j0 * w as int,
                        );
                    }
                }
                lo = n;
            } else {
                proof {
                    assert((j as int) * w as int == (j as int - 1) * w as int + w as int)
                        by (nonlinear_arith);
                }
                lo = lo + w;
            }
        }
        proof {
            assert(out@ == deck_text(self@));
        }
        out
    }

    /// Whether every cell is owned.
    fn all_owned_exec(&self) -> (r: bool)
        ensures
            r == all_owned(self@.cells),
    {
        let mut i: usize = 0;
        while i < self.cells.len()
            invariant
                i <= self@.cells.len(),
                forall|j: int| 0 <= j < i ==> #[trigger] self@.cells[j].owner > 0,
            decreases self@.cells.len() - i,
        {
            if self.cells[i].owner == 0 {
                return false;
            }
            i = i + 1;
        }
        true
    }

    /// The first player with the maximal score.
    fn winner_exec(&self) -> (r: u8)
        requires
            1 <= self@.scores.len() <= 3,
        ensures
            r as int == winner_of(self@.scores),
    {
        let mut best: usize = 0;
        let mut i: usize = 1;
        while i < self.scores.len()
            invariant
                1 <= i <= self@.scores.len(),
                best < i,
                best as int == winner_of(self@.scores.take(i as int)),
            decreases self@.scores.len() - i,
        {
            proof {
                let t = self@.scores.take(i as int + 1);
                assert(t.drop_last() =~= self@.scores.take(i as int));
                assert(t.last() == self@.scores[i as int]);
            }
            if self.scores[i] > self.scores[best] {
                best = i;
            }
            i = i + 1;
        }
        proof {
            assert(self@.scores.take(self@.scores.len() as int) =~= self@.scores);
        }
        best as u8
    }

    /// Checks a move and applies it if it is legal; an illegal move is
    /// reported and leaves the state untouched.
    pub fn try_play(&mut self, mv: usize) -> (r: Result<(), PlayError>)
        requires
            old(self)@.wf(),
        ensures
            final(self)@.wf(),
            match r {
                Ok(_) => {
                    &&& old(self)@.outcome is None
                    &&& is_avail(old(self)@, mv as int)
                    &&& final(self)@ == play_step(old(self)@, mv)
                },
                Err(e) => {
                    &&& final(self)@ == old(self)@
                    &&& e == (if old(self)@.outcome is Some {
                        PlayError::Finished
                    } else if mv >= old(self)@.cells.len() {
                        PlayError::OutOfBounds
                    } else {
                        PlayError::Unavailable
                    })
                    &&& !(old(self)@.outcome is None && is_avail(old(self)@, mv as int))
                },
            },
    {
        if self.outcome.is_some() {
            return Err(PlayError::Finished);
        }
        if mv >= self.cells.len() {
            return Err(PlayError::OutOfBounds);
        }
        if !self.is_available_move(mv) {
            return Err(PlayError::Unavailable);
        }
        self.play(mv);
        Ok(())
    }
}


/// The whole board dump: the cells' codes in a near-square grid.
pub open spec fn deck_text(s: DeckModel) -> Seq<char> {
    let n = s.cells.len() as int;
    let w = grid_width(n);
    rows_chars(s.cards(), w, grid_rows(n, w))
}

/// What an [`InitError`] means, in words.
pub open spec fn init_error_chars(e: InitError) -> Seq<char> {
    match e {
        InitError::ZeroPairs => "requested zero pairs"@,
        InitError::ZeroRanks => "no ranks to draw cards from"@,
        InitError::RanksTooLarge => "rank count too large for the card encoding"@,
        InitError::TooManyPairs => "more pairs than the ranks can carry under this rule"@,
        InitError::BadPlayerCount => "the player count must be between one and three"@,
    }
}

impl InitError {
    /// Describes the error in words.
    pub fn describe(&self) -> (r: &'static str)
        ensures
            r@ == init_error_chars(*self),
    {
        match self {
            InitError::ZeroPairs => "requested zero pairs",
            InitError::ZeroRanks => "no ranks to draw cards from",
            InitError::RanksTooLarge => "rank count too large for the card encoding",
            InitError::TooManyPairs => "more pairs than the ranks can carry under this rule",
            InitError::BadPlayerCount => "the player count must be between one and three",
        }
    }
}

/// What a [`PlayError`] means, in words.
pub open spec fn play_error_chars(e: PlayError) -> Seq<char> {
    match e {
        PlayError::Finished => "the game is already over"@,
        PlayError::OutOfBounds => "no such cell on the board"@,
        PlayError::Unavailable => "that cell cannot be played now"@,
    }
}

impl PlayError {
    /// Describes the error in words.
    pub fn describe(&self) -> (r: &'static str)
        ensures
            r@ == play_error_chars(*self),
    {
        match self {
            PlayError::Finished => "the game is already over",
            PlayError::OutOfBounds => "no such cell on the board",
            PlayError::Unavailable => "that cell cannot be played now",
        }
    }
}


/// The end-of-game message shown to the first human: the outcome as
/// words, from their point of view.
pub open spec fn outcome_text_chars(outcome: Option<u8>, human_first: bool) -> Seq<char> {
    match outcome {
        Some(p) => if human_first && p == 0 {
            "You Won"@
        } else {
            "You Lost"@
        },
        None => "None"@,
    }
}

/// Renders an outcome for the scoreboard: whether "you" — player zero
/// when a human goes first — won the finished game.
pub fn outcome_text(outcome: Option<u8>, human_first: bool) -> (s: String)
    ensures
        s@ == outcome_text_chars(outcome, human_first),
{
    let mut s = String::new();
    match outcome {
        Some(p) => {
            if human_first && p == 0 {
                s.append("You Won");
            } else {
                s.append("You Lost");
            }
        },
        None => {
            s.append("None");
        },
    }
    proof {
        assert(s@ =~= outcome_text_chars(outcome, human_first));
    }
    s
}

/// `play_step` preserves the invariant whenever its preconditions — a
/// well-formed, unfinished deck and a legal move — hold.
pub proof fn lemma_play_step_wf(s: DeckModel, mv: usize)
    requires
        s.wf(),
        s.outcome is None,
        is_avail(s, mv as int),
    ensures
        play_step(s, mv).wf(),
{
    let base = if s.opened.len() == 2 {
        DeckModel { opened: Seq::empty(), ..s }
    } else {
        s
    };
    let c0 = base.cells[mv as int];
    let cells1 = base.cells.update(mv as int, Cell { count: inc_count(c0.count), ..c0 });
    let opened1 = base.opened.push(mv);
    assert(cells1[mv as int].owner == 0);
    assert(next_of(s) < s.player_count);
    assert forall|i: int| 0 <= i < cells1.len() implies (#[trigger] cells1[i].card as int)
        < code_limit(s.mode.rule, s.ranks as int) && cells1[i].owner <= s.player_count by {
        if i != mv as int {
            assert(cells1[i] == base.cells[i]);
        }
    }
    if opened1.len() < 2 {
        assert(!all_owned(cells1));
    } else {
        let a = opened1[0] as int;
        assert(base == s && s.opened.len() == 1);
        assert(a != mv as int);
        assert(cells1[a].owner == 0);
        if codes_match(s.mode.rule, s.ranks as int, cells1[a].card as int, cells1[
            mv as int].card as int) {
            let own = (s.current + 1) as u8;
            let cells2 = cells1.update(a, Cell { owner: own, ..cells1[a] }).update(
                mv as int,
                Cell { owner: own, ..cells1[mv as int] },
            );
            assert forall|i: int| 0 <= i < cells2.len() implies (#[trigger] cells2[i].card as int)
                < code_limit(s.mode.rule, s.ranks as int) && cells2[i].owner
                <= s.player_count by {
                if i != mv as int && i != a {
                    assert(cells2[i] == cells1[i]);
                }
            }
            let done = all_owned(cells2);
            let scores2 = if done || cells2[mv as int].count > 1 {
                s.scores.update(
                    s.current as int,
                    add_score(s.scores[s.current as int], cells2[a].count + cells2[
                        mv as int].count),
                )
            } else {
                s.scores
            };
            assert(scores2.len() == s.player_count as nat);
            if done {
                lemma_winner_bounds(scores2);
            }
        } else {
            assert(!all_owned(cells1));
        }
    }
}

} // verus!
