//! Verified decimal rendering, the basis of the textual debug dumps.

use vstd::prelude::*;

verus! {

/// The digit character for a value below ten.
pub open spec fn dec_digit(d: int) -> char {
    if d == 0 {
        '0'
    } else if d == 1 {
        '1'
    } else if d == 2 {
        '2'
    } else if d == 3 {
        '3'
    } else if d == 4 {
        '4'
    } else if d == 5 {
        '5'
    } else if d == 6 {
        '6'
    } else if d == 7 {
        '7'
    } else if d == 8 {
        '8'
    } else {
        '9'
    }
}

/// The decimal digits of a non-negative number, most significant first.
pub open spec fn dec_chars(n: int) -> Seq<char>
    decreases n,
{
    if n < 10 {
        seq![dec_digit(n)]
    } else {
        dec_chars(n / 10).push(dec_digit(n % 10))
    }
}

/// The one-character string slice for a digit.
fn digit_slice(d: u64) -> (r: &'static str)
    requires
        d < 10,
    ensures
        r@ =~= seq![dec_digit(d as int)],
{
    proof {
        reveal_strlit("0");
        reveal_strlit("1");
        reveal_strlit("2");
        reveal_strlit("3");
        reveal_strlit("4");
        reveal_strlit("5");
        reveal_strlit("6");
        reveal_strlit("7");
        reveal_strlit("8");
        reveal_strlit("9");
    }
    match d {
        0 => "0",
        1 => "1",
        2 => "2",
        3 => "3",
        4 => "4",
        5 => "5",
        6 => "6",
        7 => "7",
        8 => "8",
        _ => "9",
    }
}

/// Renders a number in decimal.
pub fn u64_dec(n: u64) -> (s: String)
    ensures
        s@ == dec_chars(n as int),
    decreases n,
{
    if n < 10 {
        let mut s = String::new();
        s.append(digit_slice(n));
        proof {
            assert(s@ =~= dec_chars(n as int));
        }
        s
    } else {
        let mut s = u64_dec(n / 10);
        s.append(digit_slice(n % 10));
        proof {
            assert(s@ =~= dec_chars(n as int));
        }
        s
    }
}

/// The integer square root: the largest `r` with `r * r <= n`.
pub open spec fn isqrt_spec(n: int) -> int
    decreases n,
{
    if n <= 0 {
        0
    } else {
        let r = isqrt_spec(n - 1);
        if (r + 1) * (r + 1) <= n {
            r + 1
        } else {
            r
        }
    }
}

/// The integer square root brackets its argument between consecutive
/// squares.
pub proof fn lemma_isqrt_spec(n: int)
    requires
        n >= 0,
    ensures
        isqrt_spec(n) >= 0,
        isqrt_spec(n) * isqrt_spec(n) <= n,
        n < (isqrt_spec(n) + 1) * (isqrt_spec(n) + 1),
    decreases n,
{
    if n > 0 {
        lemma_isqrt_spec(n - 1);
        let r = isqrt_spec(n - 1);
        if (r + 1) * (r + 1) <= n {
            assert(n < (r + 2) * (r + 2)) by (nonlinear_arith)
                requires
                    r >= 0,
                    n - 1 < (r + 1) * (r + 1),
            ;
        }
    }
}

/// The width of the printed grid: the rounded square root of the cell
/// count.
pub open spec fn grid_width(n: int) -> int {
    let r = isqrt_spec(n);
    if n >= r * r + r + 1 {
        r + 1
    } else {
        r
    }
}

/// How many grid rows the printed board needs.
pub open spec fn grid_rows(n: int, w: int) -> int {
    n / w + if n % w == 0 {
        0int
    } else {
        1int
    }
}

/// The text of one cell: its code in decimal, padded to three columns.
pub open spec fn cell_chars(card: int) -> Seq<char> {
    (if card < 10 {
        "  "@
    } else if card < 100 {
        " "@
    } else {
        Seq::<char>::empty()
    }) + dec_chars(card)
}

/// One printed row: a border bar followed by the first `k` cells of the
/// row starting at `lo`.
pub open spec fn row_chars(cards: Seq<u32>, lo: int, k: int) -> Seq<char>
    decreases k,
{
    if k <= 0 {
        "|"@
    } else {
        row_chars(cards, lo, k - 1) + cell_chars(cards[lo + k - 1] as int)
    }
}

/// The first `j` printed rows of the board, each closed off and ended
/// by a newline.
pub open spec fn rows_chars(cards: Seq<u32>, w: int, j: int) -> Seq<char>
    decreases j,
{
    if j <= 0 {
        Seq::empty()
    } else {
        let lo = (j - 1) * w;
        let k = if cards.len() - lo < w {
            cards.len() - lo
        } else {
            w
        };
        rows_chars(cards, w, j - 1) + row_chars(cards, lo, k) + "|\n"@
    }
}

/// The largest `r` with `r * r <= n`, computed by counting up.
pub(crate) fn isqrt64(n: u64) -> (r: u64)
    ensures
        r as int == isqrt_spec(n as int),
{
    let mut i: u64 = 0;
    loop
        invariant
            i as int * i as int <= n as int,
            i <= n,
        decreases n - i,
    {
        proof {
            assert(i as int <= 0x1_0000_0000) by (nonlinear_arith)
                requires
                    i as int * i as int <= n as int,
                    n as int <= u64::MAX as int,
                    i as int >= 0,
            ;
            assert((i as int + 1) * (i as int + 1) <= 0x2_0000_0001_0000_0000) by (nonlinear_arith)
                requires
                    0 <= i as int <= 0x1_0000_0000,
            ;
        }
        let next = i as u128 + 1;
        if next * next <= n as u128 {
            proof {
                assert((i + 1) as int <= n as int) by (nonlinear_arith)
                    requires
                        (i as int + 1) * (i as int + 1) <= n as int,
                        i >= 0,
                ;
            }
            i = i + 1;
        } else {
            proof {
                lemma_isqrt_spec(n as int);
                let s = isqrt_spec(n as int);
                assert(i as int == s) by (nonlinear_arith)
                    requires
                        i as int * i as int <= n as int,
                        (n as int) < (i as int + 1) * (i as int + 1),
                        s * s <= n as int,
                        (n as int) < (s + 1) * (s + 1),
                        i as int >= 0,
                        s >= 0,
                ;
            }
            return i;
        }
    }
}

} // verus!
