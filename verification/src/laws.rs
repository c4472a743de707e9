//! Game-wide laws of the match engine, stated over [`DeckModel`] and
//! [`play_step`] — the value and transition function that every
//! contract of [`crate::deck::Deck`] is written against.

use vstd::prelude::*;
use vstd::multiset::Multiset;
use crate::cards::{codes_match, code_limit, code_of, color_of, rank_of, suit_of, MatchRules,
    MAX_RANKS};
use crate::deck::{Cell, DeckModel, all_owned, avail_seq, count_avail, is_avail, next_of, play_step};
use crate::gen::{color_total, layout_pairable, mcount, rank_total};

verus! {

/// The state reached by replaying a sequence of picks from `s`.
pub open spec fn replay(s: DeckModel, moves: Seq<usize>) -> DeckModel
    decreases moves.len(),
{
    if moves.len() == 0 {
        s
    } else {
        replay(play_step(s, moves[0]), moves.drop_first())
    }
}

/// Rules are deterministic even though generation is not: a replay is
/// a fold of the pure transition [`play_step`] over the picks, so a
/// fixed layout and a fixed sequence of picks always pass through the
/// same owner, score and outcome states. `Deck::play` ensures that the
/// deck after each call is exactly `play_step` of the deck before it.
pub proof fn lemma_replay_snoc(s: DeckModel, moves: Seq<usize>, m: usize)
    ensures
        replay(s, moves.push(m)) == play_step(replay(s, moves), m),
    decreases moves.len(),
{
    if moves.len() == 0 {
        assert(moves.push(m).drop_first() =~= Seq::<usize>::empty());
        assert(moves.push(m)[0] == m);
        assert(replay(s, moves.push(m)) == replay(play_step(s, m), Seq::<usize>::empty()));
        assert(replay(play_step(s, m), Seq::<usize>::empty()) == play_step(s, m));
        assert(replay(s, moves) == s);
    } else {
        assert(moves.push(m).drop_first() =~= moves.drop_first().push(m));
        assert(moves.push(m)[0] == moves[0]);
        lemma_replay_snoc(play_step(s, moves[0]), moves.drop_first(), m);
        assert(replay(s, moves.push(m)) == replay(play_step(s, moves[0]), moves.drop_first().push(m)));
        assert(replay(s, moves) == replay(play_step(s, moves[0]), moves.drop_first()));
    }
}

/// The outcome moves one way only. A play never takes an owner away,
/// so a complete board stays complete; the outcome appears exactly at
/// the play that completes the board, and since `play` requires the
/// outcome to still be `None`, no play can follow it.
pub proof fn lemma_outcome_monotone(s: DeckModel, mv: usize)
    requires
        s.wf(),
        s.outcome is None,
        is_avail(s, mv as int),
    ensures
        forall|i: int|
            0 <= i < s.cells.len() && #[trigger] s.cells[i].owner > 0 ==> play_step(
                s,
                mv,
            ).cells[i].owner == s.cells[i].owner,
        play_step(s, mv).outcome is Some <==> all_owned(play_step(s, mv).cells),
{
    crate::deck::lemma_play_step_wf(s, mv);
    let s2 = play_step(s, mv);
    assert forall|i: int|
        0 <= i < s.cells.len() && #[trigger] s.cells[i].owner > 0 implies s2.cells[i].owner
        == s.cells[i].owner by {
        assert(i != mv as int);
        if s.opened.len() == 1 {
            assert(i != s.opened[0] as int);
        }
    }
}

/// Turn alternation. Flipping the first card of a pair never moves the
/// turn. When the pair is completed, the turn passes to the next
/// player modulo the player count — except that a successful match
/// under a combo mode lets the player keep the turn.
pub proof fn lemma_turn_alternation(s: DeckModel, mv: usize)
    requires
        s.wf(),
        s.outcome is None,
        is_avail(s, mv as int),
    ensures
        s.opened.len() != 1 ==> play_step(s, mv).current == s.current,
        s.opened.len() == 1 ==> {
            let matched = codes_match(
                s.mode.rule,
                s.ranks as int,
                s.cells[s.opened[0] as int].card as int,
                s.cells[mv as int].card as int,
            );
            if matched && s.mode.combo {
                play_step(s, mv).current == s.current
            } else {
                play_step(s, mv).current == next_of(s)
            }
        },
{
    if s.opened.len() == 1 {
        let a = s.opened[0] as int;
        let cells1 = s.cells.update(mv as int, Cell { count: crate::deck::inc_count(s.cells[mv as int].count), ..s.cells[mv as int] });
        assert(a != mv as int);
        assert(cells1[a].card == s.cells[a].card);
        assert(cells1[mv as int].card == s.cells[mv as int].card);
    }
}

/// How many cells of the first `n` are unowned.
pub open spec fn count_unowned(cells: Seq<Cell>, n: int) -> int
    decreases n,
{
    if n <= 0 {
        0
    } else {
        count_unowned(cells, n - 1) + if cells[n - 1].owner == 0 {
            1int
        } else {
            0int
        }
    }
}

/// Between pairs — when no single card lies face up — the legal moves
/// are exactly the unowned cells.
proof fn lemma_avail_is_unowned(s: DeckModel, n: int)
    requires
        s.opened.len() != 1,
        0 <= n <= s.cells.len(),
    ensures
        avail_seq(s, n).len() == count_unowned(s.cells, n),
    decreases n,
{
    if n > 0 {
        lemma_avail_is_unowned(s, n - 1);
    }
}

/// Owner-equal prefixes have equal unowned counts.
proof fn lemma_count_unowned_same(a: Seq<Cell>, b: Seq<Cell>, n: int)
    requires
        n <= a.len(),
        n <= b.len(),
        forall|i: int| 0 <= i < n ==> #[trigger] a[i].owner == b[i].owner,
    ensures
        count_unowned(a, n) == count_unowned(b, n),
    decreases n,
{
    if n > 0 {
        lemma_count_unowned_same(a, b, n - 1);
    }
}

/// Giving an owner to one unowned cell lowers the unowned count of
/// every prefix that covers it by one.
proof fn lemma_count_unowned_set(a: Seq<Cell>, i: int, c: Cell, n: int)
    requires
        0 <= i < a.len(),
        n <= a.len(),
        a[i].owner == 0,
        c.owner != 0,
    ensures
        count_unowned(a.update(i, c), n) == count_unowned(a, n) - if i < n {
            1int
        } else {
            0int
        },
    decreases n,
{
    if n > 0 {
        lemma_count_unowned_set(a, i, c, n - 1);
    }
}

/// Legal-move shrinkage. Played from a pair boundary, a completed pair
/// that matches takes exactly its two cells out of the legal moves;
/// a completed pair that does not match leaves the count of legal
/// moves exactly as it was.
pub proof fn lemma_move_shrinkage(s: DeckModel, m1: usize, m2: usize)
    requires
        s.wf(),
        s.outcome is None,
        s.opened.len() != 1,
        is_avail(s, m1 as int),
        is_avail(play_step(s, m1), m2 as int),
    ensures
        ({
            let s1 = play_step(s, m1);
            let s2 = play_step(s1, m2);
            let matched = codes_match(
                s.mode.rule,
                s.ranks as int,
                s.cells[m1 as int].card as int,
                s.cells[m2 as int].card as int,
            );
            if matched {
                count_avail(s2) == count_avail(s) - 2
            } else {
                count_avail(s2) == count_avail(s)
            }
        }),
{
    crate::deck::lemma_play_step_wf(s, m1);
    let s1 = play_step(s, m1);
    crate::deck::lemma_play_step_wf(s1, m2);
    let s2 = play_step(s1, m2);
    let n = s.cells.len() as int;
    let matched = codes_match(
        s.mode.rule,
        s.ranks as int,
        s.cells[m1 as int].card as int,
        s.cells[m2 as int].card as int,
    );
    assert(s1.opened =~= Seq::<usize>::empty().push(m1));
    assert(s1.cells[m1 as int].card == s.cells[m1 as int].card);
    assert(s1.cells[m2 as int].card == s.cells[m2 as int].card);
    assert(m2 != m1);
    lemma_avail_is_unowned(s, n);
    lemma_avail_is_unowned(s2, n);
    assert(s2.cells.len() == n);
    let cells1 = s1.cells.update(
        m2 as int,
        Cell { count: crate::deck::inc_count(s1.cells[m2 as int].count), ..s1.cells[m2 as int] },
    );
    assert forall|i: int| 0 <= i < n implies #[trigger] cells1[i].owner == s.cells[i].owner by {}
    if matched {
        let own = (s1.current + 1) as u8;
        let ca = cells1[m1 as int];
        let cb = cells1[m2 as int];
        let cellsa = cells1.update(m1 as int, Cell { owner: own, ..ca });
        let cellsb = cellsa.update(m2 as int, Cell { owner: own, ..cb });
        assert(s2.cells =~= cellsb);
        lemma_count_unowned_same(cells1, s.cells, n);
        lemma_count_unowned_set(cells1, m1 as int, Cell { owner: own, ..ca }, n);
        assert(cellsa[m2 as int].owner == 0);
        lemma_count_unowned_set(cellsa, m2 as int, Cell { owner: own, ..cb }, n);
        lemma_count_unowned_same(cellsb, s2.cells, n);
    } else {
        assert(s2.cells =~= cells1);
        lemma_count_unowned_same(cells1, s.cells, n);
        lemma_count_unowned_same(s2.cells, cells1, n);
    }
}


/// The cards still in play: one occurrence for every unowned cell.
pub open spec fn unowned_ms(cells: Seq<Cell>) -> Multiset<u32>
    decreases cells.len(),
{
    if cells.len() == 0 {
        Multiset::empty()
    } else {
        let rest = unowned_ms(cells.drop_last());
        if cells.last().owner == 0 {
            rest.insert(cells.last().card)
        } else {
            rest
        }
    }
}

/// On a board where nothing is owned yet, the cards in play are exactly
/// the cards laid out.
proof fn lemma_unowned_all(cells: Seq<Cell>)
    requires
        forall|i: int| 0 <= i < cells.len() ==> #[trigger] cells[i].owner == 0,
    ensures
        unowned_ms(cells) == cells.map_values(|c: Cell| c.card).to_multiset(),
    decreases cells.len(),
{
    broadcast use vstd::seq_lib::group_to_multiset_ensures;
    broadcast use vstd::multiset::group_multiset_axioms;

    let cards = cells.map_values(|c: Cell| c.card);
    if cells.len() == 0 {
        assert(cards =~= Seq::<u32>::empty());
        assert(cards.to_multiset() =~= Multiset::<u32>::empty());
    } else {
        let dl = cells.drop_last();
        lemma_unowned_all(dl);
        assert(dl.map_values(|c: Cell| c.card) =~= cards.drop_last());
        assert(cards =~= cards.drop_last().push(cells.last().card));
        assert(cards.to_multiset() =~= cards.drop_last().to_multiset().insert(cells.last().card));
    }
}

/// Two boards with the same owners and cards hold the same cards in
/// play, whatever their flip counts.
proof fn lemma_unowned_congruent(a: Seq<Cell>, b: Seq<Cell>)
    requires
        a.len() == b.len(),
        forall|i: int|
            0 <= i < a.len() ==> #[trigger] a[i].owner == b[i].owner && a[i].card == b[i].card,
    ensures
        unowned_ms(a) == unowned_ms(b),
    decreases a.len(),
{
    if a.len() > 0 {
        lemma_unowned_congruent(a.drop_last(), b.drop_last());
        assert(a.last().owner == b.last().owner && a.last().card == b.last().card);
    }
}

/// An unowned cell's card is among the cards in play.
proof fn lemma_unowned_member(cells: Seq<Cell>, i: int)
    requires
        0 <= i < cells.len(),
        cells[i].owner == 0,
    ensures
        unowned_ms(cells).count(cells[i].card) >= 1,
    decreases cells.len(),
{
    broadcast use vstd::multiset::group_multiset_axioms;

    if i < cells.len() - 1 {
        lemma_unowned_member(cells.drop_last(), i);
    }
}

/// Two distinct unowned cells of one card put it in play twice.
proof fn lemma_unowned_member2(cells: Seq<Cell>, i: int, j: int)
    requires
        0 <= i < cells.len(),
        0 <= j < cells.len(),
        i != j,
        cells[i].owner == 0,
        cells[j].owner == 0,
        cells[i].card == cells[j].card,
    ensures
        unowned_ms(cells).count(cells[i].card) >= 2,
    decreases cells.len(),
{
    broadcast use vstd::multiset::group_multiset_axioms;

    if i == cells.len() - 1 {
        lemma_unowned_member(cells.drop_last(), j);
    } else if j == cells.len() - 1 {
        lemma_unowned_member(cells.drop_last(), i);
    } else {
        lemma_unowned_member2(cells.drop_last(), i, j);
    }
}

/// A card in play sits on some unowned cell.
proof fn lemma_unowned_pick(cells: Seq<Cell>, c: u32)
    requires
        unowned_ms(cells).count(c) >= 1,
    ensures
        exists|i: int|
            0 <= i < cells.len() && (#[trigger] cells[i]).owner == 0 && cells[i].card == c,
    decreases cells.len(),
{
    broadcast use vstd::multiset::group_multiset_axioms;

    if cells.len() == 0 {
    } else if cells.last().owner == 0 && cells.last().card == c {
        assert(cells[cells.len() - 1].owner == 0 && cells[cells.len() - 1].card == c);
    } else {
        lemma_unowned_pick(cells.drop_last(), c);
        let i = choose|i: int|
            0 <= i < cells.len() - 1 && (#[trigger] cells.drop_last()[i]).owner == 0
                && cells.drop_last()[i].card == c;
        assert(cells[i].owner == 0 && cells[i].card == c);
    }
}

/// A card in play twice sits on two distinct unowned cells.
proof fn lemma_unowned_pick2(cells: Seq<Cell>, c: u32)
    requires
        unowned_ms(cells).count(c) >= 2,
    ensures
        exists|i: int, j: int|
            0 <= i < cells.len() && 0 <= j < cells.len() && i != j && (#[trigger] cells[i]).owner
                == 0 && (#[trigger] cells[j]).owner == 0 && cells[i].card == c && cells[j].card
                == c,
    decreases cells.len(),
{
    broadcast use vstd::multiset::group_multiset_axioms;

    if cells.last().owner == 0 && cells.last().card == c {
        lemma_unowned_pick(cells.drop_last(), c);
        let i = choose|i: int|
            0 <= i < cells.len() - 1 && (#[trigger] cells.drop_last()[i]).owner == 0
                && cells.drop_last()[i].card == c;
        let j = cells.len() - 1;
        assert(cells[i].owner == 0 && cells[i].card == c);
        assert(cells[j].owner == 0 && cells[j].card == c);
    } else {
        lemma_unowned_pick2(cells.drop_last(), c);
        let (i, j) = choose|i: int, j: int|
            0 <= i < cells.len() - 1 && 0 <= j < cells.len() - 1 && i != j && (
            #[trigger] cells.drop_last()[i]).owner == 0 && (#[trigger] cells.drop_last()[j]).owner
                == 0 && cells.drop_last()[i].card == c && cells.drop_last()[j].card == c;
        assert(cells[i].owner == 0 && cells[i].card == c);
        assert(cells[j].owner == 0 && cells[j].card == c);
    }
}

/// Every card in play respects the board's code bound.
proof fn lemma_unowned_support(cells: Seq<Cell>, lim: int)
    requires
        forall|i: int| 0 <= i < cells.len() ==> (#[trigger] cells[i].card as int) < lim,
    ensures
        forall|c: u32| #[trigger] unowned_ms(cells).count(c) > 0 ==> (c as int) < lim,
    decreases cells.len(),
{
    broadcast use vstd::multiset::group_multiset_axioms;

    if cells.len() > 0 {
        lemma_unowned_support(cells.drop_last(), lim);
        assert forall|c: u32| #[trigger] unowned_ms(cells).count(c) > 0 implies (c as int)
            < lim by {
            if !(cells.last().owner == 0 && cells.last().card == c) {
                assert(unowned_ms(cells.drop_last()).count(c) > 0);
            }
        }
    }
}

/// Giving an owner to one unowned cell takes exactly its card out of
/// play.
proof fn lemma_unowned_remove(cells: Seq<Cell>, i: int, c2: Cell)
    requires
        0 <= i < cells.len(),
        cells[i].owner == 0,
        c2.owner != 0,
    ensures
        unowned_ms(cells.update(i, c2)) == unowned_ms(cells).remove(cells[i].card),
    decreases cells.len(),
{
    broadcast use vstd::multiset::group_multiset_axioms;

    let upd = cells.update(i, c2);
    if i == cells.len() - 1 {
        assert(upd.drop_last() =~= cells.drop_last());
        assert(unowned_ms(upd) == unowned_ms(cells.drop_last()));
        assert(unowned_ms(cells) == unowned_ms(cells.drop_last()).insert(cells[i].card));
        assert(unowned_ms(cells.drop_last()).insert(cells[i].card).remove(cells[i].card)
            =~= unowned_ms(cells.drop_last()));
    } else {
        assert(upd.drop_last() =~= cells.drop_last().update(i, c2));
        lemma_unowned_remove(cells.drop_last(), i, c2);
        assert(upd.last() == cells.last());
        if cells.last().owner == 0 {
            lemma_unowned_member(cells.drop_last(), i);
            assert(unowned_ms(cells.drop_last()).remove(cells[i].card).insert(cells.last().card)
                =~= unowned_ms(cells.drop_last()).insert(cells.last().card).remove(cells[i].card));
        }
    }
}


/// Taking one card out of a multiset lowers exactly its own count and
/// exactly the one colour total its suit and rank sit in.
proof fn lemma_totals_remove(m: Multiset<u32>, ranks: int, c: int)
    requires
        1 <= ranks <= MAX_RANKS as int,
        0 <= c < 8 * ranks,
        mcount(m, c) >= 1,
    ensures
        forall|c2: int| #[trigger]
            mcount(m.remove(c as u32), c2) == mcount(m, c2) - if c2 == c {
                1int
            } else {
                0int
            },
        forall|rk2: int, p: int|
            0 <= rk2 < ranks && 0 <= p < 2 ==> #[trigger] color_total(
                m.remove(c as u32),
                ranks,
                rk2,
                p,
            ) == color_total(m, ranks, rk2, p) - if rank_of(ranks, c) == rk2 && color_of(ranks, c)
                == p {
                1int
            } else {
                0int
            },
{
    broadcast use vstd::multiset::group_multiset_axioms;

    crate::gen::lemma_code_split_pub(ranks, c);
    let sc = suit_of(ranks, c);
    let rc = rank_of(ranks, c);
    assert forall|c2: int| #[trigger]
        mcount(m.remove(c as u32), c2) == mcount(m, c2) - (if c2 == c {
            1int
        } else {
            0int
        }) by {}
    assert forall|rk2: int, p: int| 0 <= rk2 < ranks && 0 <= p < 2 implies #[trigger] color_total(
        m.remove(c as u32),
        ranks,
        rk2,
        p,
    ) == color_total(m, ranks, rk2, p) - (if rank_of(ranks, c) == rk2 && color_of(ranks, c) == p {
        1int
    } else {
        0int
    }) by {
        assert forall|suit: int| 0 <= suit < 8 implies #[trigger] mcount(
            m.remove(c as u32),
            code_of(ranks, suit, rk2),
        ) == mcount(m, code_of(ranks, suit, rk2)) - (if suit == sc && rk2 == rc {
            1int
        } else {
            0int
        }) by {
            crate::gen::lemma_code_parts_pub(ranks, suit, rk2);
        }
        assert(color_of(ranks, c) == sc % 2);
    }
}

/// Resolving a matched pair keeps the cards in play pairable: the two
/// removed cards always leave whole matchable groups behind.
proof fn lemma_pairable_remove_pair(rule: MatchRules, ranks: int, m: Multiset<u32>, c1: int, c2: int)
    requires
        1 <= ranks <= MAX_RANKS as int,
        0 <= c1 < code_limit(rule, ranks),
        0 <= c2 < code_limit(rule, ranks),
        codes_match(rule, ranks, c1, c2),
        c1 == c2 ==> mcount(m, c1) >= 2,
        c1 != c2 ==> mcount(m, c1) >= 1 && mcount(m, c2) >= 1,
        layout_pairable(rule, ranks, m),
        rule == MatchRules::Zebra ==> forall|c: int| #[trigger] mcount(m, c) <= 1,
    ensures
        layout_pairable(rule, ranks, m.remove(c1 as u32).remove(c2 as u32)),
        rule == MatchRules::Zebra ==> forall|c: int| #[trigger]
            mcount(m.remove(c1 as u32).remove(c2 as u32), c) <= 1,
{
    broadcast use vstd::multiset::group_multiset_axioms;

    let m1 = m.remove(c1 as u32);
    let m2 = m1.remove(c2 as u32);
    assert(code_limit(rule, ranks) <= 8 * ranks);
    crate::gen::lemma_code_split_pub(ranks, c1);
    crate::gen::lemma_code_split_pub(ranks, c2);
    lemma_totals_remove(m, ranks, c1);
    assert(mcount(m1, c2) >= 1);
    lemma_totals_remove(m1, ranks, c2);
    match rule {
        MatchRules::AnyColor => {
            assert forall|rk2: int| 0 <= rk2 < ranks implies #[trigger] rank_total(m2, ranks, rk2)
                % 2 == 0 by {
                assert(rank_total(m, ranks, rk2) % 2 == 0);
            }
        },
        MatchRules::SameColor => {
            assert forall|rk2: int, p: int| 0 <= rk2 < ranks && 0 <= p < 2 implies #[trigger]
                color_total(m2, ranks, rk2, p) % 2 == 0 by {
                assert(color_total(m, ranks, rk2, p) % 2 == 0);
            }
        },
        MatchRules::Zebra => {
            assert(c1 != c2);
            assert(rank_of(ranks, c1) == rank_of(ranks, c2));
            assert(suit_of(ranks, c1) != suit_of(ranks, c2));
            assert(color_of(ranks, c1) != color_of(ranks, c2));
            assert forall|rk2: int| 0 <= rk2 < ranks implies #[trigger] color_total(
                m2,
                ranks,
                rk2,
                0,
            ) == color_total(m2, ranks, rk2, 1) by {
                assert(color_total(m, ranks, rk2, 0) == color_total(m, ranks, rk2, 1));
            }
            assert forall|c: int| #[trigger] mcount(m2, c) <= 1 by {
                assert(mcount(m, c) <= 1);
            }
        },
        MatchRules::TwoDecks => {
            assert(c1 == c2);
            assert forall|c: int| #[trigger] mcount(m2, c) % 2 == 0 by {
                assert(mcount(m, c) % 2 == 0);
            }
        },
        MatchRules::CheckeredDeck => {
            assert(c1 % (4 * ranks) == c2 % (4 * ranks));
            if c1 == c2 {
                if c1 < 4 * ranks {
                    assert(mcount(m, c1) <= 1);
                } else {
                    vstd::arithmetic::div_mod::lemma_fundamental_div_mod_converse(
                        c1,
                        4 * ranks,
                        1,
                        c1 - 4 * ranks,
                    );
                    assert(mcount(m, c1 - 4 * ranks) == mcount(m, c1));
                }
                assert(false);
            }
            let d = if c1 < 4 * ranks {
                c1
            } else {
                c2
            };
            let h = if c1 < 4 * ranks {
                c2
            } else {
                c1
            };
            assert(d < 4 * ranks && h == d + 4 * ranks) by {
                vstd::arithmetic::div_mod::lemma_mod_bound(c1, 4 * ranks);
                if c1 < 4 * ranks {
                    vstd::arithmetic::div_mod::lemma_small_mod(c1 as nat, (4 * ranks) as nat);
                } else {
                    vstd::arithmetic::div_mod::lemma_fundamental_div_mod_converse(
                        c1,
                        4 * ranks,
                        1,
                        c1 - 4 * ranks,
                    );
                }
                if c2 < 4 * ranks {
                    vstd::arithmetic::div_mod::lemma_small_mod(c2 as nat, (4 * ranks) as nat);
                } else {
                    vstd::arithmetic::div_mod::lemma_fundamental_div_mod_converse(
                        c2,
                        4 * ranks,
                        1,
                        c2 - 4 * ranks,
                    );
                }
            }
            assert forall|c: int| 0 <= c < 4 * ranks implies #[trigger] mcount(m2, c) <= 1
                && mcount(m2, c) == mcount(m2, c + 4 * ranks) by {
                assert(mcount(m, c) <= 1 && mcount(m, c) == mcount(m, c + 4 * ranks));
            }
        },
    }
}


/// In a pairable multiset, every card still in play has a partner it
/// matches: either a second copy of itself or a distinct matching code.
proof fn lemma_matchable_exists(rule: MatchRules, ranks: int, m: Multiset<u32>, w: u32)
    requires
        1 <= ranks <= MAX_RANKS as int,
        layout_pairable(rule, ranks, m),
        forall|c: u32| #[trigger] m.count(c) > 0 ==> (c as int) < code_limit(rule, ranks),
        (w as int) < code_limit(rule, ranks),
        m.count(w) >= 1,
    ensures
        exists|c1: u32, c2: u32|
            {
                &&& codes_match(rule, ranks, c1 as int, c2 as int)
                &&& (c1 as int) < code_limit(rule, ranks)
                &&& (c2 as int) < code_limit(rule, ranks)
                &&& #[trigger] m.count(c1) >= 1
                &&& #[trigger] m.count(c2) >= 1
                &&& (c1 == c2 ==> m.count(c1) >= 2)
            },
{
    broadcast use vstd::multiset::group_multiset_axioms;

    assert(code_limit(rule, ranks) <= 8 * ranks);
    crate::gen::lemma_code_split_pub(ranks, w as int);
    let sw = suit_of(ranks, w as int);
    let rw = rank_of(ranks, w as int);
    assert forall|suit: int| 0 <= suit < 8 implies (#[trigger] mcount(m, code_of(ranks, suit, rw))
        >= 0) && (4 <= suit && code_limit(rule, ranks) <= 4 * ranks ==> mcount(
        m,
        code_of(ranks, suit, rw),
    ) == 0) by {
        crate::gen::lemma_code_parts_pub(ranks, suit, rw);
        if 4 <= suit && code_limit(rule, ranks) <= 4 * ranks {
            let cd = code_of(ranks, suit, rw);
            assert(cd >= 4 * ranks) by (nonlinear_arith)
                requires
                    suit >= 4,
                    ranks >= 1,
                    rw >= 0,
                    cd == suit * ranks + rw,
            ;
            if mcount(m, cd) > 0 {
                assert(m.count(cd as u32) > 0);
                assert((cd as u32 as int) < code_limit(rule, ranks));
                assert(false);
            }
        }
    }
    match rule {
        MatchRules::AnyColor => {
            if m.count(w) >= 2 {
                assert(codes_match(rule, ranks, w as int, w as int));
                assert(m.count(w) >= 1 && m.count(w) >= 2);
            } else {
                assert(rank_total(m, ranks, rw) % 2 == 0);
                let s0 = if sw == 0 {
                    1int
                } else {
                    0int
                };
                let s1 = if sw <= 1 {
                    2int
                } else {
                    1int
                };
                let s2 = if sw == 3 {
                    2int
                } else {
                    3int
                };
                crate::gen::lemma_code_parts_pub(ranks, s0, rw);
                crate::gen::lemma_code_parts_pub(ranks, s1, rw);
                crate::gen::lemma_code_parts_pub(ranks, s2, rw);
                if mcount(m, code_of(ranks, s0, rw)) >= 1 {
                    let c2 = code_of(ranks, s0, rw) as u32;
                    assert(codes_match(rule, ranks, w as int, c2 as int));
                    assert(m.count(c2) >= 1);
                } else if mcount(m, code_of(ranks, s1, rw)) >= 1 {
                    let c2 = code_of(ranks, s1, rw) as u32;
                    assert(codes_match(rule, ranks, w as int, c2 as int));
                    assert(m.count(c2) >= 1);
                } else if mcount(m, code_of(ranks, s2, rw)) >= 1 {
                    let c2 = code_of(ranks, s2, rw) as u32;
                    assert(codes_match(rule, ranks, w as int, c2 as int));
                    assert(m.count(c2) >= 1);
                } else {
                    assert(mcount(m, w as int) == m.count(w));
                    assert(rank_total(m, ranks, rw) == 1);
                    assert(false);
                }
            }
        },
        MatchRules::SameColor => {
            if m.count(w) >= 2 {
                assert(codes_match(rule, ranks, w as int, w as int));
            } else {
                let colw = color_of(ranks, w as int);
                assert(color_total(m, ranks, rw, colw) % 2 == 0);
                let so = if sw < 2 {
                    sw + 2
                } else {
                    sw - 2
                };
                crate::gen::lemma_code_parts_pub(ranks, so, rw);
                assert(so % 2 == sw % 2);
                if mcount(m, code_of(ranks, so, rw)) >= 1 {
                    let c2 = code_of(ranks, so, rw) as u32;
                    assert(codes_match(rule, ranks, w as int, c2 as int));
                    assert(m.count(c2) >= 1);
                } else {
                    assert(mcount(m, w as int) == m.count(w));
                    assert(color_total(m, ranks, rw, colw) == 1);
                    assert(false);
                }
            }
        },
        MatchRules::Zebra => {
            let colw = color_of(ranks, w as int);
            assert(color_total(m, ranks, rw, colw) >= mcount(m, w as int)) by {
                assert(mcount(m, code_of(ranks, sw, rw)) == m.count(w) as int);
            }
            assert(color_total(m, ranks, rw, 1 - colw) == color_total(m, ranks, rw, colw));
            let sa = 1 - colw;
            let sb = sa + 2;
            crate::gen::lemma_code_parts_pub(ranks, sa, rw);
            crate::gen::lemma_code_parts_pub(ranks, sb, rw);
            if mcount(m, code_of(ranks, sa, rw)) >= 1 {
                let c2 = code_of(ranks, sa, rw) as u32;
                assert(codes_match(rule, ranks, w as int, c2 as int));
                assert(m.count(c2) >= 1);
                assert(c2 != w);
            } else if mcount(m, code_of(ranks, sb, rw)) >= 1 {
                let c2 = code_of(ranks, sb, rw) as u32;
                assert(codes_match(rule, ranks, w as int, c2 as int));
                assert(m.count(c2) >= 1);
                assert(c2 != w);
            } else {
                assert(color_total(m, ranks, rw, 1 - colw) == 0);
                assert(false);
            }
        },
        MatchRules::TwoDecks => {
            assert(mcount(m, w as int) % 2 == 0);
            assert(m.count(w) >= 2);
            assert(codes_match(rule, ranks, w as int, w as int));
        },
        MatchRules::CheckeredDeck => {
            let d = w as int % (4 * ranks);
            vstd::arithmetic::div_mod::lemma_mod_bound(w as int, 4 * ranks);
            if (w as int) < 4 * ranks {
                vstd::arithmetic::div_mod::lemma_small_mod(w as nat, (4 * ranks) as nat);
            } else {
                vstd::arithmetic::div_mod::lemma_fundamental_div_mod_converse(
                    w as int,
                    4 * ranks,
                    1,
                    w as int - 4 * ranks,
                );
            }
            assert(0 <= d < 4 * ranks);
            assert(w as int == d || w as int == d + 4 * ranks);
            assert(mcount(m, d) == mcount(m, d + 4 * ranks));
            let c1 = d as u32;
            let c2 = (d + 4 * ranks) as u32;
            assert(m.count(c1) >= 1 && m.count(c2) >= 1);
            assert(codes_match(rule, ranks, c1 as int, c2 as int)) by {
                vstd::arithmetic::div_mod::lemma_small_mod(d as nat, (4 * ranks) as nat);
                vstd::arithmetic::div_mod::lemma_fundamental_div_mod_converse(
                    d + 4 * ranks,
                    4 * ranks,
                    1,
                    d,
                );
            }
            assert(c1 != c2);
        },
    }
}


/// The liveness invariant behind pairing completeness: the cards of
/// the unowned cells can still be resolved into matchable pairs — and,
/// under the zebra rule, no code is in play twice, as its generator
/// guarantees.
pub open spec fn board_live(s: DeckModel) -> bool {
    &&& layout_pairable(s.mode.rule, s.ranks as int, unowned_ms(s.cells))
    &&& (s.mode.rule == MatchRules::Zebra ==> forall|c: int| #[trigger]
        mcount(unowned_ms(s.cells), c) <= 1)
}

/// Pairing completeness at the start of a game: on a fresh board every
/// cell is in play and the layout is pairable, so the board is live.
/// The hypotheses are exactly what `Deck::init` ensures of a new deck.
pub proof fn lemma_fresh_deck_live(s: DeckModel)
    requires
        forall|i: int| 0 <= i < s.cells.len() ==> (#[trigger] s.cells[i]).owner == 0,
        layout_pairable(s.mode.rule, s.ranks as int, s.cards().to_multiset()),
        s.mode.rule == MatchRules::Zebra ==> forall|c: int| #[trigger]
            mcount(s.cards().to_multiset(), c) <= 1,
    ensures
        board_live(s),
{
    lemma_unowned_all(s.cells);
}

/// Pairing completeness during play: a play keeps the board live.
/// Flips leave the cards in play untouched, and a resolved match takes
/// exactly two matching cards out of play, which leaves whole
/// matchable groups behind.
pub proof fn lemma_play_keeps_live(s: DeckModel, mv: usize)
    requires
        s.wf(),
        s.outcome is None,
        is_avail(s, mv as int),
        board_live(s),
    ensures
        board_live(play_step(s, mv)),
{
    let s2 = play_step(s, mv);
    let base = if s.opened.len() == 2 {
        DeckModel { opened: Seq::empty(), ..s }
    } else {
        s
    };
    let c0 = base.cells[mv as int];
    let cells1 = base.cells.update(
        mv as int,
        Cell { count: crate::deck::inc_count(c0.count), ..c0 },
    );
    lemma_unowned_congruent(cells1, s.cells);
    if base.opened.len() + 1 < 2 {
        assert(s2.cells == cells1);
    } else {
        let a = s.opened[0] as int;
        assert(base == s && s.opened.len() == 1);
        assert(a != mv as int);
        let carda = s.cells[a].card;
        let cardb = s.cells[mv as int].card;
        assert(cells1[a].card == carda && cells1[mv as int].card == cardb);
        if codes_match(s.mode.rule, s.ranks as int, carda as int, cardb as int) {
            let own = (s.current + 1) as u8;
            let ca2 = Cell { owner: own, ..cells1[a] };
            let cb2 = Cell { owner: own, ..cells1[mv as int] };
            let cells_d = cells1.update(a, ca2);
            let cells_e = cells_d.update(mv as int, cb2);
            assert(s2.cells =~= cells_e);
            assert(cells1[a].owner == 0);
            lemma_unowned_remove(cells1, a, ca2);
            assert(cells_d[mv as int].owner == 0 && cells_d[mv as int].card == cardb);
            lemma_unowned_remove(cells_d, mv as int, cb2);
            let u = unowned_ms(s.cells);
            assert(unowned_ms(cells_e) == u.remove(carda).remove(cardb));
            if carda == cardb {
                lemma_unowned_member2(s.cells, a, mv as int);
            } else {
                lemma_unowned_member(s.cells, a);
                lemma_unowned_member(s.cells, mv as int);
            }
            lemma_pairable_remove_pair(
                s.mode.rule,
                s.ranks as int,
                u,
                carda as int,
                cardb as int,
            );
        } else {
            assert(s2.cells == cells1);
        }
    }
}

/// Pairing completeness in play: in a live game, at a pair boundary,
/// there are always two distinct legal moves whose cards match — the
/// game can always be continued to completion.
pub proof fn lemma_matchable_move_exists(s: DeckModel)
    requires
        s.wf(),
        s.outcome is None,
        s.opened.len() != 1,
        board_live(s),
    ensures
        exists|i: int, j: int|
            #![trigger is_avail(s, i), is_avail(s, j)]
            {
                &&& i != j
                &&& is_avail(s, i)
                &&& is_avail(s, j)
                &&& codes_match(
                    s.mode.rule,
                    s.ranks as int,
                    s.cells[i].card as int,
                    s.cells[j].card as int,
                )
            },
{
    broadcast use vstd::multiset::group_multiset_axioms;

    let rule = s.mode.rule;
    let ranks = s.ranks as int;
    let lim = code_limit(rule, ranks);
    assert(!all_owned(s.cells));
    let i0 = choose|i: int| 0 <= i < s.cells.len() && (#[trigger] s.cells[i]).owner == 0;
    lemma_unowned_member(s.cells, i0);
    lemma_unowned_support(s.cells, lim);
    let u = unowned_ms(s.cells);
    lemma_matchable_exists(rule, ranks, u, s.cells[i0].card);
    let (c1, c2) = choose|c1: u32, c2: u32|
        {
            &&& codes_match(rule, ranks, c1 as int, c2 as int)
            &&& (c1 as int) < lim
            &&& (c2 as int) < lim
            &&& #[trigger] u.count(c1) >= 1
            &&& #[trigger] u.count(c2) >= 1
            &&& (c1 == c2 ==> u.count(c1) >= 2)
        };
    if c1 == c2 {
        lemma_unowned_pick2(s.cells, c1);
        let (i, j) = choose|i: int, j: int|
            0 <= i < s.cells.len() && 0 <= j < s.cells.len() && i != j && (
            #[trigger] s.cells[i]).owner == 0 && (#[trigger] s.cells[j]).owner == 0
                && s.cells[i].card == c1 && s.cells[j].card == c1;
        assert(is_avail(s, i) && is_avail(s, j));
        assert(codes_match(rule, ranks, s.cells[i].card as int, s.cells[j].card as int));
    } else {
        lemma_unowned_pick(s.cells, c1);
        lemma_unowned_pick(s.cells, c2);
        let i = choose|i: int|
            0 <= i < s.cells.len() && (#[trigger] s.cells[i]).owner == 0 && s.cells[i].card == c1;
        let j = choose|j: int|
            0 <= j < s.cells.len() && (#[trigger] s.cells[j]).owner == 0 && s.cells[j].card == c2;
        assert(i != j);
        assert(is_avail(s, i) && is_avail(s, j));
        assert(codes_match(rule, ranks, s.cells[i].card as int, s.cells[j].card as int));
    }
}

} // verus!
