//! The card-set generator.
//!
//! Given a pair count, a rank count and a match rule, the generator
//! chooses how many pair slots each rank receives (a uniform draw among
//! the ranks that still have free slots, until exactly `count` slots
//! remain), assigns concrete suits to every chosen rank as the rule
//! demands, and shuffles the resulting card codes — the whole board at
//! once for a full plate, or the two interleaved halves independently
//! for a half-plate layout.
//!
//! The central guarantee is [`layout_pairable`]: whatever the random
//! draws were, the multiset of generated codes can be resolved into
//! matchable pairs under the rule in effect.

use vstd::prelude::*;
use vstd::multiset::Multiset;
use vstd::arithmetic::div_mod::lemma_fundamental_div_mod;
use vstd::arithmetic::div_mod::lemma_fundamental_div_mod_converse;
use crate::cards::{MatchRules, MAX_RANKS, suits_per_rank, suits_per_rank_exec, code_limit, rank_of,
    suit_of, color_of, code_of};
use crate::rng::GameRng;

verus! {

/// The number of occurrences of code `c` in `m`, as a mathematical
/// integer; codes outside `u32` never occur.
pub open spec fn mcount(m: Multiset<u32>, c: int) -> int {
    if 0 <= c <= u32::MAX as int {
        m.count(c as u32) as int
    } else {
        0
    }
}

/// How many cells of `m` hold rank `rk` in a suit of colour `p`
/// (suits `p`, `p + 2`, `p + 4`, `p + 6`).
pub open spec fn color_total(m: Multiset<u32>, ranks: int, rk: int, p: int) -> int {
    mcount(m, code_of(ranks, p, rk)) + mcount(m, code_of(ranks, p + 2, rk)) + mcount(
        m,
        code_of(ranks, p + 4, rk),
    ) + mcount(m, code_of(ranks, p + 6, rk))
}

/// How many cells of `m` hold rank `rk`, over all eight possible suits.
pub open spec fn rank_total(m: Multiset<u32>, ranks: int, rk: int) -> int {
    color_total(m, ranks, rk, 0) + color_total(m, ranks, rk, 1)
}

/// How many elements of `s` are of colour `p`.
pub open spec fn count_parity(s: Seq<u32>, ranks: int, p: int) -> int
    decreases s.len(),
{
    if s.len() == 0 {
        0
    } else {
        count_parity(s.drop_last(), ranks, p) + if color_of(ranks, s.last() as int) == p {
            1int
        } else {
            0int
        }
    }
}

/// A multiset of card codes can be resolved into matchable pairs under
/// `rule`:
///
/// * `AnyColor` matches within a rank, so each rank must hold an even
///   number of cells.
/// * `SameColor` matches within a rank and colour, so each such group
///   must be even.
/// * `Zebra` pairs each cell with one of the opposite colour and the
///   same rank, so the two colours of a rank must tie.
/// * `TwoDecks` matches only identical codes, so each code must occur
///   an even number of times.
/// * `CheckeredDeck` matches a code with its copy offset by four suits,
///   so the two copies must occur equally often, at most once each.
pub open spec fn layout_pairable(rule: MatchRules, ranks: int, m: Multiset<u32>) -> bool {
    match rule {
        MatchRules::AnyColor => forall|rk: int|
            0 <= rk < ranks ==> #[trigger] rank_total(m, ranks, rk) % 2 == 0,
        MatchRules::SameColor => forall|rk: int, p: int|
            0 <= rk < ranks && 0 <= p < 2 ==> #[trigger] color_total(m, ranks, rk, p) % 2 == 0,
        MatchRules::Zebra => forall|rk: int|
            0 <= rk < ranks ==> #[trigger] color_total(m, ranks, rk, 0) == color_total(
                m,
                ranks,
                rk,
                1,
            ),
        MatchRules::TwoDecks => forall|c: int| #[trigger] mcount(m, c) % 2 == 0,
        MatchRules::CheckeredDeck => forall|c: int|
            0 <= c < 4 * ranks ==> #[trigger] mcount(m, c) <= 1 && mcount(m, c) == mcount(
                m,
                c + 4 * ranks,
            ),
    }
}

/// The sum of the first `n` entries of a slot table.
pub open spec fn sum_prefix(s: Seq<u32>, n: int) -> int
    decreases n,
{
    if n <= 0 {
        0
    } else {
        sum_prefix(s, n - 1) + s[n - 1]
    }
}

/// A card code built from a suit below eight and a rank below `ranks`
/// decomposes back into exactly that suit and rank, and lies within
/// `u32` whenever `ranks` is within [`MAX_RANKS`].
proof fn lemma_code_parts(ranks: int, suit: int, rk: int)
    requires
        1 <= ranks,
        0 <= suit < 8,
        0 <= rk < ranks,
    ensures
        rank_of(ranks, code_of(ranks, suit, rk)) == rk,
        suit_of(ranks, code_of(ranks, suit, rk)) == suit,
        0 <= code_of(ranks, suit, rk) < 8 * ranks,
        suit < 4 ==> code_of(ranks, suit, rk) < 4 * ranks,
{
    lemma_fundamental_div_mod_converse(suit * ranks + rk, ranks, suit, rk);
    assert(suit * ranks + rk < 8 * ranks) by (nonlinear_arith)
        requires
            suit < 8,
            rk < ranks,
            0 <= suit,
            0 <= rk,
            1 <= ranks,
    ;
    assert(suit < 4 ==> suit * ranks + rk < 4 * ranks) by (nonlinear_arith)
        requires
            rk < ranks,
            0 <= suit,
            0 <= rk,
            1 <= ranks,
    ;
    assert(0 <= suit * ranks) by (nonlinear_arith)
        requires
            0 <= suit,
            1 <= ranks,
    ;
}

/// Any code below `8 * ranks` is the code of its own suit and rank, the
/// suit below eight and the rank below `ranks`.
proof fn lemma_code_split(ranks: int, c: int)
    requires
        1 <= ranks,
        0 <= c < 8 * ranks,
    ensures
        c == code_of(ranks, suit_of(ranks, c), rank_of(ranks, c)),
        0 <= suit_of(ranks, c) < 8,
        0 <= rank_of(ranks, c) < ranks,
{
    lemma_fundamental_div_mod(c, ranks);
    assert(ranks * (c / ranks) == (c / ranks) * ranks) by (nonlinear_arith);
    assert(c / ranks < 8) by (nonlinear_arith)
        requires
            1 <= ranks,
            0 <= c < 8 * ranks,
    ;
    assert(c / ranks >= 0) by (nonlinear_arith)
        requires
            1 <= ranks,
            0 <= c,
    ;
    assert(0 <= c % ranks < ranks);
}


/// Public form of [`lemma_code_parts`].
pub proof fn lemma_code_parts_pub(ranks: int, suit: int, rk: int)
    requires
        1 <= ranks,
        0 <= suit < 8,
        0 <= rk < ranks,
    ensures
        rank_of(ranks, code_of(ranks, suit, rk)) == rk,
        suit_of(ranks, code_of(ranks, suit, rk)) == suit,
        0 <= code_of(ranks, suit, rk) < 8 * ranks,
        suit < 4 ==> code_of(ranks, suit, rk) < 4 * ranks,
{
    lemma_code_parts(ranks, suit, rk);
}

/// Public form of [`lemma_code_split`].
pub proof fn lemma_code_split_pub(ranks: int, c: int)
    requires
        1 <= ranks,
        0 <= c < 8 * ranks,
    ensures
        c == code_of(ranks, suit_of(ranks, c), rank_of(ranks, c)),
        0 <= suit_of(ranks, c) < 8,
        0 <= rank_of(ranks, c) < ranks,
{
    lemma_code_split(ranks, c);
}

/// In a multiset whose codes all carry rank `rk`, the colour totals of
/// that rank count the whole sequence by parity, and every other rank's
/// totals are zero.
proof fn lemma_block_totals(s: Seq<u32>, ranks: int, rk: int)
    requires
        1 <= ranks <= MAX_RANKS as int,
        0 <= rk < ranks,
        forall|i: int|
            0 <= i < s.len() ==> rank_of(ranks, #[trigger] s[i] as int) == rk && 0 <= s[i] < 8
                * ranks,
    ensures
        color_total(s.to_multiset(), ranks, rk, 0) == count_parity(s, ranks, 0),
        color_total(s.to_multiset(), ranks, rk, 1) == count_parity(s, ranks, 1),
        forall|rk2: int, p: int|
            0 <= rk2 < ranks && rk2 != rk && 0 <= p < 2 ==> #[trigger] color_total(
                s.to_multiset(),
                ranks,
                rk2,
                p,
            ) == 0,
    decreases s.len(),
{
    broadcast use vstd::seq_lib::group_to_multiset_ensures;
    broadcast use vstd::multiset::group_multiset_axioms;

    if s.len() == 0 {
        assert forall|c: u32| s.to_multiset().count(c) == 0 by {
            if s.to_multiset().count(c) > 0 {
                assert(s.contains(c));
            }
        }
        assert forall|suit: int, rk2: int| 0 <= suit < 8 && 0 <= rk2 < ranks implies #[trigger]
            mcount(s.to_multiset(), code_of(ranks, suit, rk2)) == 0 by {
            lemma_code_parts(ranks, suit, rk2);
        }
    } else {
        let s0 = s.drop_last();
        let a = s.last();
        lemma_block_totals(s0, ranks, rk);
        assert(s =~= s0.push(a));
        assert(s.to_multiset() =~= s0.to_multiset().insert(a));
        let sa = suit_of(ranks, a as int);
        lemma_code_split(ranks, a as int);
        assert(a as int == code_of(ranks, sa, rk));
        // The insert bumps exactly the term of suit `sa` and rank `rk`.
        assert forall|suit: int, rk2: int|
            0 <= suit < 8 && 0 <= rk2 < ranks && (suit != sa || rk2 != rk) implies #[trigger]
            mcount(s.to_multiset(), code_of(ranks, suit, rk2)) == mcount(
            s0.to_multiset(),
            code_of(ranks, suit, rk2),
        ) by {
            lemma_code_parts(ranks, suit, rk2);
            assert(code_of(ranks, suit, rk2) != a as int);
        }
        assert(mcount(s.to_multiset(), a as int) == mcount(s0.to_multiset(), a as int) + 1) by {
            lemma_code_parts(ranks, sa, rk);
        }
        assert(color_of(ranks, a as int) == sa % 2);
        assert forall|rk2: int, p: int|
            0 <= rk2 < ranks && rk2 != rk && 0 <= p < 2 implies #[trigger] color_total(
            s.to_multiset(),
            ranks,
            rk2,
            p,
        ) == 0 by {
            assert(color_total(s0.to_multiset(), ranks, rk2, p) == 0);
            assert(mcount(s.to_multiset(), code_of(ranks, p, rk2)) == mcount(
                s0.to_multiset(),
                code_of(ranks, p, rk2),
            ));
            assert(mcount(s.to_multiset(), code_of(ranks, p + 2, rk2)) == mcount(
                s0.to_multiset(),
                code_of(ranks, p + 2, rk2),
            ));
            assert(mcount(s.to_multiset(), code_of(ranks, p + 4, rk2)) == mcount(
                s0.to_multiset(),
                code_of(ranks, p + 4, rk2),
            ));
            assert(mcount(s.to_multiset(), code_of(ranks, p + 6, rk2)) == mcount(
                s0.to_multiset(),
                code_of(ranks, p + 6, rk2),
            ));
        }
    }
}

/// Each element has exactly one colour, so the two parity counts cover
/// the sequence.
proof fn lemma_count_parity_len(s: Seq<u32>, ranks: int)
    requires
        1 <= ranks,
    ensures
        count_parity(s, ranks, 0) + count_parity(s, ranks, 1) == s.len(),
    decreases s.len(),
{
    if s.len() > 0 {
        lemma_count_parity_len(s.drop_last(), ranks);
        let a = s.last() as int;
        assert(suit_of(ranks, a) >= 0) by (nonlinear_arith)
            requires
                1 <= ranks,
                a >= 0,
        ;
        assert(color_of(ranks, a) == 0 || color_of(ranks, a) == 1);
    }
}

/// Colour totals are zero for a rank that no code of the multiset
/// carries.
proof fn lemma_totals_absent(m: Multiset<u32>, ranks: int, rk: int)
    requires
        1 <= ranks <= MAX_RANKS as int,
        0 <= rk < ranks,
        forall|c: u32| m.count(c) > 0 ==> rank_of(ranks, c as int) != rk,
    ensures
        color_total(m, ranks, rk, 0) == 0,
        color_total(m, ranks, rk, 1) == 0,
{
    assert forall|suit: int| 0 <= suit < 8 implies #[trigger] mcount(
        m,
        code_of(ranks, suit, rk),
    ) == 0 by {
        lemma_code_parts(ranks, suit, rk);
        let c = code_of(ranks, suit, rk);
        if mcount(m, c) > 0 {
            assert(m.count(c as u32) > 0);
            assert(rank_of(ranks, c as u32 as int) != rk);
        }
    }
}

/// Appending a block of freshly suited codes, all of one rank that the
/// layout built so far does not use, keeps the layout pairable.
proof fn lemma_pairable_append(rule: MatchRules, ranks: int, m0: Multiset<u32>, b: Seq<u32>, rk: int)
    requires
        1 <= ranks <= MAX_RANKS as int,
        0 <= rk < ranks,
        layout_pairable(rule, ranks, m0),
        forall|c: u32|
            #[trigger] m0.count(c) > 0 ==> (c as int) < code_limit(rule, ranks) && rank_of(
                ranks,
                c as int,
            ) != rk,
        forall|i: int|
            0 <= i < b.len() ==> rank_of(ranks, #[trigger] b[i] as int) == rk && (b[i] as int)
                < code_limit(rule, ranks),
        b.len() % 2 == 0,
        rule == MatchRules::SameColor ==> count_parity(b, ranks, 0) % 2 == 0 && count_parity(
            b,
            ranks,
            1,
        ) % 2 == 0,
        rule == MatchRules::Zebra ==> count_parity(b, ranks, 0) == count_parity(b, ranks, 1),
        rule == MatchRules::Zebra ==> (forall|c: int| #[trigger] mcount(m0, c) <= 1) && (forall|
            c: int,
        | #[trigger] mcount(b.to_multiset(), c) <= 1),
        rule == MatchRules::TwoDecks ==> forall|c: int| #[trigger]
            mcount(b.to_multiset(), c) % 2 == 0,
        rule == MatchRules::CheckeredDeck ==> forall|c: int|
            0 <= c < 4 * ranks ==> #[trigger] mcount(b.to_multiset(), c) <= 1 && mcount(
                b.to_multiset(),
                c,
            ) == mcount(b.to_multiset(), c + 4 * ranks),
    ensures
        layout_pairable(rule, ranks, m0.add(b.to_multiset())),
        rule == MatchRules::Zebra ==> forall|c: int| #[trigger]
            mcount(m0.add(b.to_multiset()), c) <= 1,
{
    broadcast use vstd::seq_lib::group_to_multiset_ensures;
    broadcast use vstd::multiset::group_multiset_axioms;

    let mb = b.to_multiset();
    let m = m0.add(mb);
    assert(code_limit(rule, ranks) <= 8 * ranks);
    assert forall|c: int| #[trigger] mcount(m, c) == mcount(m0, c) + mcount(mb, c) by {}
    lemma_block_totals(b, ranks, rk);
    lemma_count_parity_len(b, ranks);
    lemma_totals_absent(m0, ranks, rk);
    match rule {
        MatchRules::AnyColor => {
            assert forall|rk2: int| 0 <= rk2 < ranks implies #[trigger] rank_total(m, ranks, rk2)
                % 2 == 0 by {
                assert(rank_total(m, ranks, rk2) == rank_total(m0, ranks, rk2) + rank_total(
                    mb,
                    ranks,
                    rk2,
                ));
                if rk2 == rk {
                    assert(rank_total(mb, ranks, rk) == b.len());
                } else {
                    assert(color_total(mb, ranks, rk2, 0) == 0);
                    assert(color_total(mb, ranks, rk2, 1) == 0);
                    assert(rank_total(m0, ranks, rk2) % 2 == 0);
                }
            }
        },
        MatchRules::SameColor => {
            assert forall|rk2: int, p: int| 0 <= rk2 < ranks && 0 <= p < 2 implies #[trigger]
                color_total(m, ranks, rk2, p) % 2 == 0 by {
                assert(color_total(m, ranks, rk2, p) == color_total(m0, ranks, rk2, p)
                    + color_total(mb, ranks, rk2, p));
                if rk2 == rk {
                    assert(color_total(mb, ranks, rk, p) == count_parity(b, ranks, p));
                } else {
                    assert(color_total(mb, ranks, rk2, p) == 0);
                    assert(color_total(m0, ranks, rk2, p) % 2 == 0);
                }
            }
        },
        MatchRules::Zebra => {
            assert forall|c: int| #[trigger] mcount(m, c) <= 1 by {
                assert(mcount(m0, c) <= 1);
                assert(mcount(mb, c) <= 1);
                if mcount(m0, c) > 0 && mcount(mb, c) > 0 {
                    assert(m0.count(c as u32) > 0);
                    assert(mb.count(c as u32) > 0);
                    assert(b.contains(c as u32));
                    let i = choose|i: int| 0 <= i < b.len() && b[i] == c as u32;
                    assert(rank_of(ranks, c) == rk);
                    assert(false);
                }
            }
            assert forall|rk2: int| 0 <= rk2 < ranks implies #[trigger] color_total(
                m,
                ranks,
                rk2,
                0,
            ) == color_total(m, ranks, rk2, 1) by {
                assert(color_total(m, ranks, rk2, 0) == color_total(m0, ranks, rk2, 0)
                    + color_total(mb, ranks, rk2, 0));
                assert(color_total(m, ranks, rk2, 1) == color_total(m0, ranks, rk2, 1)
                    + color_total(mb, ranks, rk2, 1));
                if rk2 == rk {
                    assert(color_total(mb, ranks, rk, 0) == count_parity(b, ranks, 0));
                    assert(color_total(mb, ranks, rk, 1) == count_parity(b, ranks, 1));
                } else {
                    assert(color_total(mb, ranks, rk2, 0) == 0);
                    assert(color_total(mb, ranks, rk2, 1) == 0);
                    assert(color_total(m0, ranks, rk2, 0) == color_total(m0, ranks, rk2, 1));
                }
            }
        },
        MatchRules::TwoDecks => {
            assert forall|c: int| #[trigger] mcount(m, c) % 2 == 0 by {
                if 0 <= c <= u32::MAX as int {
                    if m0.count(c as u32) > 0 {
                        assert(mcount(m0, c) % 2 == 0);
                    }
                    assert(mcount(mb, c) % 2 == 0);
                    assert(mcount(m0, c) % 2 == 0);
                }
            }
        },
        MatchRules::CheckeredDeck => {
            assert forall|c: int| 0 <= c < 4 * ranks implies #[trigger] mcount(m, c) <= 1 && mcount(
                m,
                c,
            ) == mcount(m, c + 4 * ranks) by {
                assert(mcount(m0, c) == mcount(m0, c + 4 * ranks));
                assert(mcount(mb, c) == mcount(mb, c + 4 * ranks));
                if mcount(mb, c) > 0 && mcount(m0, c) > 0 {
                    assert(b.to_multiset().count(c as u32) > 0);
                    assert(b.contains(c as u32));
                    let i = choose|i: int| 0 <= i < b.len() && b[i] == c as u32;
                    assert(rank_of(ranks, c) == rk);
                    assert(false);
                }
            }
        },
    }
}

/// The number of non-zero entries among the first `n` slots.
pub open spec fn count_nonzero(s: Seq<u32>, n: int) -> int
    decreases n,
{
    if n <= 0 {
        0
    } else {
        count_nonzero(s, n - 1) + if s[n - 1] > 0 {
            1int
        } else {
            0int
        }
    }
}

/// Prefix counts of non-zero slots are never negative.
proof fn lemma_count_nonzero_nonneg(s: Seq<u32>, n: int)
    requires
        n <= s.len(),
    ensures
        count_nonzero(s, n) >= 0,
    decreases n,
{
    if n > 0 {
        lemma_count_nonzero_nonneg(s, n - 1);
    }
}

/// A positive slot sum means some slot is still free.
proof fn lemma_sum_nonzero(s: Seq<u32>, n: int)
    requires
        0 <= n <= s.len(),
        sum_prefix(s, n) > 0,
    ensures
        count_nonzero(s, n) > 0,
    decreases n,
{
    if n > 0 {
        if s[n - 1] == 0 {
            lemma_sum_nonzero(s, n - 1);
        } else {
            lemma_count_nonzero_nonneg(s, n - 1);
        }
    }
}

/// Prefix sums only look at the entries below `n`.
proof fn lemma_sum_prefix_congruence(s1: Seq<u32>, s2: Seq<u32>, n: int)
    requires
        n <= s1.len(),
        n <= s2.len(),
        forall|i: int| 0 <= i < n ==> s1[i] == s2[i],
    ensures
        sum_prefix(s1, n) == sum_prefix(s2, n),
    decreases n,
{
    if n > 0 {
        lemma_sum_prefix_congruence(s1, s2, n - 1);
    }
}

/// Appending one element shifts a parity count by that element's colour.
proof fn lemma_count_parity_push(s: Seq<u32>, a: u32, ranks: int, p: int)
    ensures
        count_parity(s.push(a), ranks, p) == count_parity(s, ranks, p) + if color_of(
            ranks,
            a as int,
        ) == p {
            1int
        } else {
            0int
        },
{
    assert(s.push(a).drop_last() =~= s);
    assert(s.push(a).last() == a);
}

/// Decrementing one slot decrements the prefix sums that cover it.
proof fn lemma_sum_prefix_update(s: Seq<u32>, i: int, v: u32, n: int)
    requires
        0 <= i < s.len(),
        0 <= n <= s.len(),
    ensures
        sum_prefix(s.update(i, v), n) == if i < n {
            sum_prefix(s, n) - s[i] + v
        } else {
            sum_prefix(s, n)
        },
    decreases n,
{
    if n > 0 {
        lemma_sum_prefix_update(s, i, v, n - 1);
    }
}

/// Picks one rank, uniformly among those whose slot count is not yet
/// exhausted.
fn pick_nonzero(slots: &Vec<u32>, rng: &mut GameRng) -> (idx: usize)
    requires
        sum_prefix(slots@, slots@.len() as int) > 0,
    ensures
        idx < slots@.len(),
        slots@[idx as int] > 0,
{
    let n = slots.len();
    let mut cnt: usize = 0;
    let mut i: usize = 0;
    while i < n
        invariant
            i <= n,
            n == slots@.len(),
            cnt == count_nonzero(slots@, i as int),
            cnt <= i,
        decreases n - i,
    {
        if slots[i] > 0 {
            cnt = cnt + 1;
        }
        i = i + 1;
    }
    proof {
        lemma_sum_nonzero(slots@, n as int);
    }
    let j = rng.next_below(cnt);
    let mut k: usize = 0;
    let mut at: usize = 0;
    while at < n
        invariant
            at <= n,
            n == slots@.len(),
            k == count_nonzero(slots@, at as int),
            k <= j,
            j < count_nonzero(slots@, n as int),
        decreases n - at,
    {
        if slots[at] > 0 {
            if k == j {
                return at;
            }
            k = k + 1;
        }
        at = at + 1;
    }
    proof {
        assert(false);
    }
    0
}

/// Distributes `count` pair slots over the ranks: every rank starts with
/// `spr` slots, and slots are removed from uniformly chosen non-empty
/// ranks until exactly `count` remain.
fn fill_slots(count: u32, ranks: u32, spr: u32, rng: &mut GameRng) -> (r: Vec<u32>)
    requires
        1 <= ranks <= MAX_RANKS,
        1 <= count,
        spr == 2 || spr == 4,
        count as int <= spr as int * ranks as int,
    ensures
        r@.len() == ranks as nat,
        forall|i: int| 0 <= i < r@.len() ==> r@[i] <= spr,
        sum_prefix(r@, ranks as int) == count as int,
{
    let mut slots: Vec<u32> = Vec::new();
    let mut i: usize = 0;
    while i < ranks as usize
        invariant
            i <= ranks as usize,
            slots@.len() == i,
            forall|j: int| 0 <= j < i ==> slots@[j] == spr,
            sum_prefix(slots@, i as int) == spr as int * i as int,
        decreases ranks as usize - i,
    {
        let ghost old_slots = slots@;
        slots.push(spr);
        proof {
            lemma_sum_prefix_congruence(old_slots, slots@, i as int);
            assert(spr as int * (i + 1) as int == spr as int * i as int + spr as int)
                by (nonlinear_arith);
        }
        i = i + 1;
    }
    let mut total: u32 = spr * ranks;
    proof {
        assert(spr as int * ranks as int <= 4 * MAX_RANKS as int) by (nonlinear_arith)
            requires
                spr as int <= 4,
                0 < ranks as int <= MAX_RANKS as int,
        ;
    }
    while total > count
        invariant
            count <= total,
            slots@.len() == ranks as nat,
            forall|j: int| 0 <= j < ranks as nat ==> slots@[j] <= spr,
            sum_prefix(slots@, ranks as int) == total as int,
        decreases total,
    {
        let idx = pick_nonzero(&slots, rng);
        let ghost old_slots = slots@;
        let v = slots[idx];
        slots[idx] = v - 1;
        proof {
            lemma_sum_prefix_update(old_slots, idx as int, (v - 1) as u32, ranks as int);
        }
        total = total - 1;
    }
    slots
}

/// Builds the cells of one rank under the any-colour rule: `2 * k`
/// distinct suits drawn from the four ordinary suits.
fn block_any_color(ranks: u32, rk: u32, k: u32, rng: &mut GameRng) -> (b: Vec<u32>)
    requires
        1 <= ranks <= MAX_RANKS,
        rk < ranks,
        1 <= k <= 2,
    ensures
        b@.len() == 2 * k as nat,
        forall|i: int|
            0 <= i < b@.len() ==> rank_of(ranks as int, #[trigger] b@[i] as int) == rk as int && (
            b@[i] as int) < 4 * ranks as int,
{
    let suits = rng.sample_distinct(4, 2 * k as usize);
    let mut b: Vec<u32> = Vec::new();
    let mut i: usize = 0;
    while i < suits.len()
        invariant
            i <= suits@.len(),
            suits@.len() == 2 * k as nat,
            forall|j: int| 0 <= j < suits@.len() ==> suits@[j] < 4,
            1 <= ranks <= MAX_RANKS,
            rk < ranks,
            b@.len() == i,
            forall|j: int|
                0 <= j < b@.len() ==> rank_of(ranks as int, #[trigger] b@[j] as int) == rk as int
                    && (b@[j] as int) < 4 * ranks as int,
        decreases suits@.len() - i,
    {
        let s = suits[i] as u32;
        proof {
            lemma_code_parts(ranks as int, s as int, rk as int);
        }
        b.push(s * ranks + rk);
        i = i + 1;
    }
    b
}

/// Builds the cells of one rank under the same-colour rule: each pair
/// sits on the two suits of one colour, the colour of the second pair
/// opposite to the first.
fn block_same_color(ranks: u32, rk: u32, k: u32, rng: &mut GameRng) -> (b: Vec<u32>)
    requires
        1 <= ranks <= MAX_RANKS,
        rk < ranks,
        1 <= k <= 2,
    ensures
        b@.len() == 2 * k as nat,
        forall|i: int|
            0 <= i < b@.len() ==> rank_of(ranks as int, #[trigger] b@[i] as int) == rk as int && (
            b@[i] as int) < 4 * ranks as int,
        count_parity(b@, ranks as int, 0) % 2 == 0,
        count_parity(b@, ranks as int, 1) % 2 == 0,
{
    let x = rng.next_below(4);
    let c: u32 = if x < 2 {
        1
    } else {
        0
    };
    let mut b: Vec<u32> = Vec::new();
    push_suit_pair(&mut b, ranks, rk, c);
    if k == 2 {
        push_suit_pair(&mut b, ranks, rk, 1 - c);
    }
    b
}

/// Pushes the two codes of rank `rk` on the two suits of colour `c`
/// (suits `c` and `c + 2`).
fn push_suit_pair(b: &mut Vec<u32>, ranks: u32, rk: u32, c: u32)
    requires
        1 <= ranks <= MAX_RANKS,
        rk < ranks,
        c < 2,
    ensures
        final(b)@ == old(b)@.push((c * ranks + rk) as u32).push(((c + 2) * ranks + rk) as u32),
        final(b)@.len() == old(b)@.len() + 2,
        rank_of(ranks as int, (c * ranks + rk) as int) == rk as int,
        rank_of(ranks as int, ((c + 2) * ranks + rk) as int) == rk as int,
        (((c + 2) * ranks + rk) as int) < 4 * ranks as int,
        forall|p: int|
            #[trigger] count_parity(final(b)@, ranks as int, p) == count_parity(
                old(b)@,
                ranks as int,
                p,
            ) + if c as int == p {
                2int
            } else {
                0int
            },
{
    proof {
        lemma_code_parts(ranks as int, c as int, rk as int);
        lemma_code_parts(ranks as int, c as int + 2, rk as int);
    }
    let lo = c * ranks + rk;
    let hi = (c + 2) * ranks + rk;
    let ghost s0 = b@;
    b.push(lo);
    b.push(hi);
    proof {
        assert forall|p: int| #[trigger] count_parity(b@, ranks as int, p) == count_parity(
            s0,
            ranks as int,
            p,
        ) + if c as int == p {
            2int
        } else {
            0int
        } by {
            lemma_count_parity_push(s0, lo, ranks as int, p);
            lemma_count_parity_push(s0.push(lo), hi, ranks as int, p);
            assert(color_of(ranks as int, lo as int) == c as int);
            assert(color_of(ranks as int, hi as int) == c as int % 2);
        }
    }
}

/// Builds the cells of one rank under the zebra rule: suits walk one
/// step around the four-suit cycle per cell, so colours alternate and
/// the two colours tie.
fn block_zebra(ranks: u32, rk: u32, k: u32, rng: &mut GameRng) -> (b: Vec<u32>)
    requires
        1 <= ranks <= MAX_RANKS,
        rk < ranks,
        1 <= k <= 2,
    ensures
        b@.len() == 2 * k as nat,
        forall|i: int|
            0 <= i < b@.len() ==> rank_of(ranks as int, #[trigger] b@[i] as int) == rk as int && (
            b@[i] as int) < 4 * ranks as int,
        count_parity(b@, ranks as int, 0) == count_parity(b@, ranks as int, 1),
        forall|c: int| #[trigger] mcount(b@.to_multiset(), c) <= 1,
{
    let x = rng.next_below(4) as u32;
    let mut b: Vec<u32> = Vec::new();
    let mut s = x;
    let mut i: u32 = 0;
    while i < 2 * k
        invariant
            1 <= ranks <= MAX_RANKS,
            rk < ranks,
            x < 4,
            i <= 2 * k,
            k <= 2,
            s < 4,
            s as int == (x as int + i as int) % 4,
            b@.len() == i as nat,
            forall|j: int|
                0 <= j < b@.len() ==> rank_of(ranks as int, #[trigger] b@[j] as int) == rk as int
                    && (b@[j] as int) < 4 * ranks as int,
            forall|j: int|
                0 <= j < b@.len() ==> #[trigger] b@[j] as int == code_of(
                    ranks as int,
                    (x as int + j) % 4,
                    rk as int,
                ),
            count_parity(b@, ranks as int, (x % 2) as int) == (i as int + 1) / 2,
            count_parity(b@, ranks as int, 1 - (x % 2) as int) == i as int / 2,
        decreases 2 * k - i,
    {
        proof {
            lemma_code_parts(ranks as int, s as int, rk as int);
            lemma_count_parity_push(b@, (s * ranks + rk) as u32, ranks as int, (x % 2) as int);
            lemma_count_parity_push(b@, (s * ranks + rk) as u32, ranks as int, 1 - (x % 2) as int);
            lemma_mod_step_4(x as int + i as int);
            assert(s % 2 == (x + i) % 2) by {
                lemma_mod_parity_4(x as int + i as int);
            }
        }
        b.push(s * ranks + rk);
        s = if s == 3 {
            0
        } else {
            s + 1
        };
        i = i + 1;
    }
    proof {
        assert forall|t1: int, t2: int| 0 <= t1 < t2 < b@.len() implies b@[t1] != b@[t2] by {
            lemma_mod_distinct_4(x as int + t1, x as int + t2);
            lemma_code_parts(ranks as int, (x as int + t1) % 4, rk as int);
            lemma_code_parts(ranks as int, (x as int + t2) % 4, rk as int);
        }
        lemma_distinct_counts(b@);
    }
    b
}

/// Stepping a sum by one steps its remainder around the four-cycle.
proof fn lemma_mod_step_4(v: int)
    requires
        v >= 0,
    ensures
        (v + 1) % 4 == if v % 4 == 3 {
            0int
        } else {
            v % 4 + 1
        },
{
    lemma_fundamental_div_mod(v, 4);
    if v % 4 == 3 {
        lemma_fundamental_div_mod_converse(v + 1, 4, v / 4 + 1, 0);
    } else {
        lemma_fundamental_div_mod_converse(v + 1, 4, v / 4, v % 4 + 1);
    }
}

/// A remainder modulo four has the parity of its argument.
proof fn lemma_mod_parity_4(v: int)
    requires
        v >= 0,
    ensures
        (v % 4) % 2 == v % 2,
{
    lemma_fundamental_div_mod(v, 4);
    lemma_fundamental_div_mod_converse(v, 2, 2 * (v / 4) + (v % 4) / 2, (v % 4) % 2);
}

/// Two values less than four apart have different remainders modulo
/// four.
proof fn lemma_mod_distinct_4(v1: int, v2: int)
    requires
        0 <= v1 < v2,
        v2 - v1 < 4,
    ensures
        v1 % 4 != v2 % 4,
{
    lemma_fundamental_div_mod(v1, 4);
    lemma_fundamental_div_mod(v2, 4);
    if v1 % 4 == v2 % 4 {
        assert(v2 - v1 == 4 * (v2 / 4) - 4 * (v1 / 4));
        assert(v2 / 4 > v1 / 4 || v2 / 4 <= v1 / 4);
        assert(false);
    }
}

/// A sequence without repeats holds each code at most once.
proof fn lemma_distinct_counts(b: Seq<u32>)
    requires
        forall|t1: int, t2: int| 0 <= t1 < t2 < b.len() ==> b[t1] != b[t2],
    ensures
        forall|c: int| #[trigger] mcount(b.to_multiset(), c) <= 1,
    decreases b.len(),
{
    broadcast use vstd::seq_lib::group_to_multiset_ensures;
    broadcast use vstd::multiset::group_multiset_axioms;

    if b.len() == 0 {
        assert forall|c: int| #[trigger] mcount(b.to_multiset(), c) <= 1 by {
            if 0 <= c <= u32::MAX as int && b.to_multiset().count(c as u32) > 0 {
                assert(b.contains(c as u32));
            }
        }
    } else {
        let dl = b.drop_last();
        let a = b.last();
        lemma_distinct_counts(dl);
        assert(b =~= dl.push(a));
        assert(b.to_multiset() =~= dl.to_multiset().insert(a));
        assert(dl.to_multiset().count(a) == 0) by {
            if dl.to_multiset().count(a) > 0 {
                assert(dl.contains(a));
                let t = choose|t: int| 0 <= t < dl.len() && dl[t] == a;
                assert(b[t] == b[b.len() - 1]);
            }
        }
        assert forall|c: int| #[trigger] mcount(b.to_multiset(), c) <= 1 by {
            if 0 <= c <= u32::MAX as int {
                assert(mcount(dl.to_multiset(), c) <= 1);
                if c == a as int {
                    assert(b.to_multiset().count(c as u32) == dl.to_multiset().count(a) + 1);
                } else {
                    assert(b.to_multiset().count(c as u32) == dl.to_multiset().count(c as u32));
                }
            }
        }
    }
}

/// Builds the cells of one rank under the two-decks rule: `k` distinct
/// suits, each code placed twice.
fn block_two_decks(ranks: u32, rk: u32, k: u32, rng: &mut GameRng) -> (b: Vec<u32>)
    requires
        1 <= ranks <= MAX_RANKS,
        rk < ranks,
        1 <= k <= 4,
    ensures
        b@.len() == 2 * k as nat,
        forall|i: int|
            0 <= i < b@.len() ==> rank_of(ranks as int, #[trigger] b@[i] as int) == rk as int && (
            b@[i] as int) < 4 * ranks as int,
        forall|c: int| #[trigger] mcount(b@.to_multiset(), c) % 2 == 0,
{
    broadcast use vstd::seq_lib::group_to_multiset_ensures;
    broadcast use vstd::multiset::group_multiset_axioms;

    let suits = rng.sample_distinct(4, k as usize);
    let mut b: Vec<u32> = Vec::new();
    let mut j: usize = 0;
    proof {
        assert forall|c: u32| b@.to_multiset().count(c) == 0 by {
            if b@.to_multiset().count(c) > 0 {
                assert(b@.contains(c));
            }
        }
    }
    while j < suits.len()
        invariant
            j <= suits@.len(),
            suits@.len() == k as nat,
            forall|t: int| 0 <= t < suits@.len() ==> suits@[t] < 4,
            1 <= ranks <= MAX_RANKS,
            rk < ranks,
            b@.len() == 2 * j as nat,
            forall|t: int|
                0 <= t < b@.len() ==> rank_of(ranks as int, #[trigger] b@[t] as int) == rk as int
                    && (b@[t] as int) < 4 * ranks as int,
            forall|c: int| #[trigger] mcount(b@.to_multiset(), c) % 2 == 0,
        decreases suits@.len() - j,
    {
        let s = suits[j] as u32;
        proof {
            lemma_code_parts(ranks as int, s as int, rk as int);
        }
        let code = s * ranks + rk;
        let ghost s0 = b@;
        let ghost m0 = b@.to_multiset();
        b.push(code);
        b.push(code);
        proof {
            assert(b@ == s0.push(code).push(code));
            vstd::seq_lib::to_multiset_build::<u32>(s0, code);
            vstd::seq_lib::to_multiset_build::<u32>(s0.push(code), code);
            assert(b@.to_multiset() =~= m0.insert(code).insert(code));
            assert forall|c: int| #[trigger] mcount(b@.to_multiset(), c) % 2 == 0 by {
                if 0 <= c <= u32::MAX as int {
                    if c == code as int {
                        assert(b@.to_multiset().count(c as u32) == m0.count(c as u32) + 2);
                    } else {
                        assert(b@.to_multiset().count(c as u32) == m0.count(c as u32));
                    }
                    assert(mcount(m0, c) % 2 == 0);
                }
            }
        }
        j = j + 1;
    }
    b
}

/// Builds the cells of one rank under the checkered-deck rule: `k`
/// distinct suits, each code placed once together with its offset copy
/// four suits up.
fn block_checkered(ranks: u32, rk: u32, k: u32, rng: &mut GameRng) -> (b: Vec<u32>)
    requires
        1 <= ranks <= MAX_RANKS,
        rk < ranks,
        1 <= k <= 4,
    ensures
        b@.len() == 2 * k as nat,
        forall|i: int|
            0 <= i < b@.len() ==> rank_of(ranks as int, #[trigger] b@[i] as int) == rk as int && (
            b@[i] as int) < 8 * ranks as int,
        forall|c: int|
            0 <= c < 4 * ranks as int ==> #[trigger] mcount(b@.to_multiset(), c) <= 1 && mcount(
                b@.to_multiset(),
                c,
            ) == mcount(b@.to_multiset(), c + 4 * ranks as int),
{
    broadcast use vstd::seq_lib::group_to_multiset_ensures;
    broadcast use vstd::multiset::group_multiset_axioms;

    let suits = rng.sample_distinct(4, k as usize);
    let mut b: Vec<u32> = Vec::new();
    let mut j: usize = 0;
    proof {
        assert forall|c: u32| b@.to_multiset().count(c) == 0 by {
            if b@.to_multiset().count(c) > 0 {
                assert(b@.contains(c));
            }
        }
    }
    while j < suits.len()
        invariant
            j <= suits@.len(),
            suits@.len() == k as nat,
            forall|t: int| 0 <= t < suits@.len() ==> suits@[t] < 4,
            forall|t1: int, t2: int| 0 <= t1 < t2 < suits@.len() ==> suits@[t1] != suits@[t2],
            1 <= ranks <= MAX_RANKS,
            rk < ranks,
            b@.len() == 2 * j as nat,
            forall|t: int|
                0 <= t < b@.len() ==> rank_of(ranks as int, #[trigger] b@[t] as int) == rk as int
                    && (b@[t] as int) < 8 * ranks as int,
            forall|c: int|
                0 <= c < 4 * ranks as int ==> #[trigger] mcount(b@.to_multiset(), c) <= 1 && mcount(
                    b@.to_multiset(),
                    c,
                ) == mcount(b@.to_multiset(), c + 4 * ranks as int) && (mcount(b@.to_multiset(), c)
                    == 1 ==> exists|t: int|
                    0 <= t < j && c == code_of(ranks as int, suits@[t] as int, rk as int)),
        decreases suits@.len() - j,
    {
        let s = suits[j] as u32;
        proof {
            lemma_code_parts(ranks as int, s as int, rk as int);
            lemma_code_parts(ranks as int, s as int + 4, rk as int);
        }
        let lo = s * ranks + rk;
        let hi = (s + 4) * ranks + rk;
        let ghost m0 = b@.to_multiset();
        proof {
            if mcount(m0, lo as int) == 1 {
                let t = choose|t: int|
                    0 <= t < j && lo as int == code_of(ranks as int, suits@[t] as int, rk as int);
                assert(suits@[t] < 4);
                lemma_code_parts(ranks as int, suits@[t] as int, rk as int);
                assert(suit_of(ranks as int, lo as int) == s as int);
                assert(false);
            }
        }
        let ghost s0 = b@;
        b.push(lo);
        b.push(hi);
        proof {
            assert(b@ == s0.push(lo).push(hi));
            vstd::seq_lib::to_multiset_build::<u32>(s0, lo);
            vstd::seq_lib::to_multiset_build::<u32>(s0.push(lo), hi);
            assert(b@.to_multiset() =~= m0.insert(lo).insert(hi));
            assert((s as int + 4) * ranks as int == s as int * ranks as int + 4 * ranks as int)
                by (nonlinear_arith);
            assert(hi as int == lo as int + 4 * ranks as int);
            assert forall|c: int| 0 <= c < 4 * ranks as int implies #[trigger] mcount(
                b@.to_multiset(),
                c,
            ) <= 1 && mcount(b@.to_multiset(), c) == mcount(
                b@.to_multiset(),
                c + 4 * ranks as int,
            ) && (mcount(b@.to_multiset(), c) == 1 ==> exists|t: int|
                0 <= t < j + 1 && c == code_of(ranks as int, suits@[t] as int, rk as int)) by {
                if c == lo as int {
                    assert(mcount(m0, c) == 0);
                    assert(mcount(b@.to_multiset(), c) == 1);
                    assert(mcount(b@.to_multiset(), c + 4 * ranks as int) == mcount(
                        m0,
                        c + 4 * ranks as int,
                    ) + 1);
                    assert(mcount(m0, c + 4 * ranks as int) == mcount(m0, c));
                    assert(c == code_of(ranks as int, suits@[j as int] as int, rk as int));
                } else {
                    assert(mcount(b@.to_multiset(), c) == mcount(m0, c));
                    assert(c + 4 * ranks as int != lo as int);
                    if c + 4 * ranks as int == hi as int {
                        assert(c == lo as int);
                        assert(false);
                    }
                    assert(mcount(b@.to_multiset(), c + 4 * ranks as int) == mcount(
                        m0,
                        c + 4 * ranks as int,
                    ));
                }
            }
        }
        j = j + 1;
    }
    b
}


/// Builds all cells of rank `rk` as one block, `k` pairs' worth of
/// codes suited as the rule demands.
fn make_block(rule: MatchRules, ranks: u32, rk: u32, k: u32, rng: &mut GameRng) -> (b: Vec<u32>)
    requires
        1 <= ranks <= MAX_RANKS,
        rk < ranks,
        1 <= k,
        k as int <= suits_per_rank(rule),
    ensures
        b@.len() == 2 * k as nat,
        forall|i: int|
            0 <= i < b@.len() ==> rank_of(ranks as int, #[trigger] b@[i] as int) == rk as int && (
            b@[i] as int) < code_limit(rule, ranks as int),
        rule == MatchRules::SameColor ==> count_parity(b@, ranks as int, 0) % 2 == 0
            && count_parity(b@, ranks as int, 1) % 2 == 0,
        rule == MatchRules::Zebra ==> count_parity(b@, ranks as int, 0) == count_parity(
            b@,
            ranks as int,
            1,
        ) && (forall|c: int| #[trigger] mcount(b@.to_multiset(), c) <= 1),
        rule == MatchRules::TwoDecks ==> forall|c: int| #[trigger]
            mcount(b@.to_multiset(), c) % 2 == 0,
        rule == MatchRules::CheckeredDeck ==> forall|c: int|
            0 <= c < 4 * ranks as int ==> #[trigger] mcount(b@.to_multiset(), c) <= 1 && mcount(
                b@.to_multiset(),
                c,
            ) == mcount(b@.to_multiset(), c + 4 * ranks as int),
{
    match rule {
        MatchRules::AnyColor => block_any_color(ranks, rk, k, rng),
        MatchRules::SameColor => block_same_color(ranks, rk, k, rng),
        MatchRules::Zebra => block_zebra(ranks, rk, k, rng),
        MatchRules::TwoDecks => block_two_decks(ranks, rk, k, rng),
        MatchRules::CheckeredDeck => block_checkered(ranks, rk, k, rng),
    }
}

/// Splits a layout into its cells at even and at odd positions: the two
/// interleaved halves of a half-plate board.
fn deinterleave(v: &Vec<u32>) -> (r: (Vec<u32>, Vec<u32>))
    ensures
        r.0@.len() == (v@.len() + 1) / 2,
        r.1@.len() == v@.len() / 2,
        forall|i: int| 0 <= i < r.0@.len() ==> r.0@[i] == v@[2 * i],
        forall|i: int| 0 <= i < r.1@.len() ==> r.1@[i] == v@[2 * i + 1],
        r.0@.to_multiset().add(r.1@.to_multiset()) == v@.to_multiset(),
{
    let mut evens: Vec<u32> = Vec::new();
    let mut odds: Vec<u32> = Vec::new();
    let mut i: usize = 0;
    proof {
        broadcast use vstd::seq_lib::group_to_multiset_ensures;
        broadcast use vstd::multiset::group_multiset_axioms;

        assert(v@.take(0) =~= Seq::<u32>::empty());
        assert forall|c: u32| Seq::<u32>::empty().to_multiset().count(c) == 0 by {
            if Seq::<u32>::empty().to_multiset().count(c) > 0 {
                assert(Seq::<u32>::empty().contains(c));
            }
        }
        assert(evens@.to_multiset().add(odds@.to_multiset()) =~= v@.take(0).to_multiset());
    }
    while i < v.len()
        invariant
            i <= v@.len(),
            evens@.len() == (i + 1) / 2,
            odds@.len() == i / 2,
            forall|t: int| 0 <= t < evens@.len() ==> evens@[t] == v@[2 * t],
            forall|t: int| 0 <= t < odds@.len() ==> odds@[t] == v@[2 * t + 1],
            evens@.to_multiset().add(odds@.to_multiset()) == v@.take(i as int).to_multiset(),
        decreases v@.len() - i,
    {
        let ghost e0 = evens@;
        let ghost o0 = odds@;
        let x = v[i];
        if i % 2 == 0 {
            evens.push(x);
        } else {
            odds.push(x);
        }
        proof {
            broadcast use vstd::multiset::group_multiset_axioms;

            assert(v@.take(i as int + 1) =~= v@.take(i as int).push(x));
            vstd::seq_lib::to_multiset_build::<u32>(v@.take(i as int), x);
            if i % 2 == 0 {
                vstd::seq_lib::to_multiset_build::<u32>(e0, x);
                assert(evens@.to_multiset().add(odds@.to_multiset()) =~= v@.take(
                    i as int + 1,
                ).to_multiset());
            } else {
                vstd::seq_lib::to_multiset_build::<u32>(o0, x);
                assert(evens@.to_multiset().add(odds@.to_multiset()) =~= v@.take(
                    i as int + 1,
                ).to_multiset());
            }
        }
        i = i + 1;
    }
    proof {
        assert(v@.take(v@.len() as int) =~= v@);
    }
    (evens, odds)
}

/// Generates a shuffled, pairable layout of `2 * count` card codes.
///
/// Every rank receives between zero and `suits_per_rank(rule)` pair
/// slots, summing to `count`; each slot becomes one pair of codes whose
/// suits obey the rule. A full plate is shuffled as a whole; otherwise
/// the layout's interleaved halves are shuffled independently and laid
/// out one after the other.
pub fn generate(count: u32, ranks: u32, rule: MatchRules, full_plate: bool, rng: &mut GameRng) -> (r:
    Vec<u32>)
    requires
        1 <= count,
        1 <= ranks <= MAX_RANKS,
        count as int <= suits_per_rank(rule) * ranks as int,
    ensures
        r@.len() == 2 * count as nat,
        forall|i: int|
            0 <= i < r@.len() ==> (#[trigger] r@[i] as int) < code_limit(rule, ranks as int),
        layout_pairable(rule, ranks as int, r@.to_multiset()),
        rule == MatchRules::Zebra ==> forall|c: int| #[trigger] mcount(r@.to_multiset(), c) <= 1,
{
    let spr = suits_per_rank_exec(rule);
    proof {
        assert(count as int <= spr as int * ranks as int);
    }
    let slots = fill_slots(count, ranks, spr, rng);
    let mut map: Vec<u32> = Vec::new();
    let mut rk: u32 = 0;
    proof {
        broadcast use vstd::seq_lib::group_to_multiset_ensures;
        broadcast use vstd::multiset::group_multiset_axioms;

        assert forall|c: u32| map@.to_multiset().count(c) == 0 by {
            if map@.to_multiset().count(c) > 0 {
                assert(map@.contains(c));
            }
        }
        assert forall|rk2: int, p: int| true implies #[trigger] color_total(
            map@.to_multiset(),
            ranks as int,
            rk2,
            p,
        ) == 0 by {}
        assert(layout_pairable(rule, ranks as int, map@.to_multiset()));
    }
    while rk < ranks
        invariant
            rk <= ranks,
            1 <= ranks <= MAX_RANKS,
            spr as int == suits_per_rank(rule),
            slots@.len() == ranks as nat,
            forall|j: int| 0 <= j < ranks as nat ==> slots@[j] <= spr,
            sum_prefix(slots@, ranks as int) == count as int,
            map@.len() == 2 * sum_prefix(slots@, rk as int),
            forall|i: int|
                0 <= i < map@.len() ==> (#[trigger] map@[i] as int) < code_limit(
                    rule,
                    ranks as int,
                ) && rank_of(ranks as int, map@[i] as int) < rk as int,
            layout_pairable(rule, ranks as int, map@.to_multiset()),
            rule == MatchRules::Zebra ==> forall|c: int| #[trigger]
                mcount(map@.to_multiset(), c) <= 1,
        decreases ranks - rk,
    {
        let k = slots[rk as usize];
        if k > 0 {
            let mut b = make_block(rule, ranks, rk, k, rng);
            let ghost old_map = map@;
            let ghost bs = b@;
            map.append(&mut b);
            proof {
                broadcast use vstd::seq_lib::group_to_multiset_ensures;
                broadcast use vstd::multiset::group_multiset_axioms;

                assert(map@ == old_map + bs);
                vstd::seq_lib::lemma_multiset_commutative(old_map, bs);
                assert forall|c: u32| #[trigger] old_map.to_multiset().count(c) > 0 implies (
                c as int) < code_limit(rule, ranks as int) && rank_of(ranks as int, c as int)
                    != rk as int by {
                    assert(old_map.contains(c));
                    let i = choose|i: int| 0 <= i < old_map.len() && old_map[i] == c;
                    assert(rank_of(ranks as int, old_map[i] as int) < rk as int);
                }
                lemma_pairable_append(
                    rule,
                    ranks as int,
                    old_map.to_multiset(),
                    bs,
                    rk as int,
                );
                assert(code_limit(rule, ranks as int) <= 8 * ranks as int);
            }
        }
        let ghost pre = rk;
        rk = rk + 1;
        proof {
            assert(sum_prefix(slots@, rk as int) == sum_prefix(slots@, pre as int) + slots@[
                pre as int]);
        }
    }
    proof {
        assert(map@.len() == 2 * count as nat);
    }
    if full_plate {
        let ghost before = map@;
        rng.shuffle(&mut map);
        proof {
            lemma_same_multiset_codes(before, map@, rule, ranks as int);
        }
        map
    } else {
        let (mut evens, mut odds) = deinterleave(&map);
        let ghost e0 = evens@;
        let ghost o0 = odds@;
        rng.shuffle(&mut evens);
        rng.shuffle(&mut odds);
        let ghost e1 = evens@;
        let ghost o1 = odds@;
        evens.append(&mut odds);
        proof {
            broadcast use vstd::multiset::group_multiset_axioms;

            vstd::seq_lib::lemma_multiset_commutative(e1, o1);
            assert(evens@.to_multiset() =~= map@.to_multiset());
            lemma_same_multiset_codes(map@, evens@, rule, ranks as int);
        }
        evens
    }
}

/// Two layouts holding the same codes are bounded and pairable alike.
proof fn lemma_same_multiset_codes(a: Seq<u32>, b: Seq<u32>, rule: MatchRules, ranks: int)
    requires
        a.to_multiset() == b.to_multiset(),
        forall|i: int| 0 <= i < a.len() ==> (#[trigger] a[i] as int) < code_limit(rule, ranks),
    ensures
        forall|i: int| 0 <= i < b.len() ==> (#[trigger] b[i] as int) < code_limit(rule, ranks),
{
    broadcast use vstd::seq_lib::group_to_multiset_ensures;

    assert forall|i: int| 0 <= i < b.len() implies (#[trigger] b[i] as int) < code_limit(
        rule,
        ranks,
    ) by {
        assert(b.contains(b[i]));
        assert(b.to_multiset().count(b[i]) > 0);
        assert(a.to_multiset().count(b[i]) > 0);
        assert(a.contains(b[i]));
        let j = choose|j: int| 0 <= j < a.len() && a[j] == b[i];
        assert((a[j] as int) < code_limit(rule, ranks));
    }
}

} // verus!
