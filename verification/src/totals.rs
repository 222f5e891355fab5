//! How many squares each piece reaches from all the squares of an empty board.

use crate::attacks::{covers, piece_type, BISHOP, KING, KNIGHT, PAWN, QUEEN, ROOK};
use crate::geometry::{file, rank};
use crate::layout::{reach_before, reach_below, reach_count, reach_total};
use vstd::math::{abs, min};
use vstd::prelude::*;

verus! {

/// One if `b` holds, else nothing.
spec fn one_if(b: bool) -> int {
    if b {
        1
    } else {
        0
    }
}

/// The number of files below `j` that `variant` on file `f` covers `dr` ranks away.
spec fn row_below(variant: int, f: int, dr: int, j: int) -> int
    decreases j,
{
    if j <= 0 {
        0
    } else {
        row_below(variant, f, dr, j - 1) + one_if(covers(variant, j - 1 - f, dr))
    }
}

/// The number of files that `variant` on file `f` covers `dr` ranks away.
#[verifier::opaque]
spec fn row(variant: int, f: int, dr: int) -> int {
    row_below(variant, f, dr, 8)
}

proof fn lemma_row(variant: int, from: int, k: int, j: int)
    requires
        0 <= from < 64,
        0 <= k < 8,
        0 <= j <= 8,
    ensures
        reach_below(variant, from, 8 * k + j) == reach_below(variant, from, 8 * k) + row_below(
            variant,
            file(from),
            k - rank(from),
            j,
        ),
    decreases j,
{
    if j > 0 {
        lemma_row(variant, from, k, j - 1);
        let s = 8 * k + j - 1;
        assert(file(s) == j - 1 && rank(s) == k);
    }
}

/// The squares that a piece reaches, rank by rank.
proof fn lemma_count_by_rows(variant: int, from: int)
    requires
        0 <= from < 64,
    ensures
        ({
            let f = file(from);
            let r = rank(from);
            reach_count(variant, from) == row(variant, f, -r) + row(variant, f, 1 - r) + row(
                variant,
                f,
                2 - r,
            ) + row(variant, f, 3 - r) + row(variant, f, 4 - r) + row(variant, f, 5 - r) + row(
                variant,
                f,
                6 - r,
            ) + row(variant, f, 7 - r)
        }),
{
    reveal(row);
    lemma_row(variant, from, 0, 8);
    lemma_row(variant, from, 1, 8);
    lemma_row(variant, from, 2, 8);
    lemma_row(variant, from, 3, 8);
    lemma_row(variant, from, 4, 8);
    lemma_row(variant, from, 5, 8);
    lemma_row(variant, from, 6, 8);
    lemma_row(variant, from, 7, 8);
}

/// The number of the two files `d` away from `f` that the board has.
spec fn sides(f: int, d: int) -> int {
    one_if(f >= d) + one_if(f + d <= 7)
}

/// The number of files that a piece covers `dr` ranks away, in closed form.
spec fn row_formula(variant: int, f: int, dr: int) -> int {
    let pt = piece_type(variant);
    if pt == PAWN {
        if dr == if variant < 6 {
            1int
        } else {
            -1
        } {
            sides(f, 1)
        } else {
            0
        }
    } else if pt == KNIGHT {
        if abs(dr) == 1 {
            sides(f, 2)
        } else if abs(dr) == 2 {
            sides(f, 1)
        } else {
            0
        }
    } else if pt == KING {
        if abs(dr) == 1 {
            1 + sides(f, 1)
        } else if dr == 0 {
            sides(f, 1)
        } else {
            0
        }
    } else if pt == BISHOP {
        if dr == 0 {
            0
        } else {
            sides(f, abs(dr) as int)
        }
    } else if pt == ROOK {
        if dr == 0 {
            7
        } else {
            1
        }
    } else {
        if dr == 0 {
            7
        } else {
            1 + sides(f, abs(dr) as int)
        }
    }
}

proof fn lemma_row_formula(variant: int, f: int, dr: int)
    requires
        0 <= f < 8,
        -8 < dr < 8,
    ensures
        row(variant, f, dr) == row_formula(variant, f, dr),
{
    reveal(row);
    reveal_with_fuel(row_below, 9);
}

/// The number of squares that a bishop covers from a file and a rank.
spec fn bishop_count(f: int, r: int) -> int {
    min(f, r) + min(f, 7 - r) + min(7 - f, r) + min(7 - f, 7 - r)
}

/// The number of squares that a piece covers from a file and a rank, in closed form.
spec fn count_formula(variant: int, f: int, r: int) -> int {
    let pt = piece_type(variant);
    if pt == PAWN {
        if (variant < 6 && r == 7) || (variant >= 6 && r == 0) {
            0
        } else {
            sides(f, 1)
        }
    } else if pt == KNIGHT {
        (if r >= 1 {
            sides(f, 2)
        } else {
            0
        }) + (if r <= 6 {
            sides(f, 2)
        } else {
            0
        }) + (if r >= 2 {
            sides(f, 1)
        } else {
            0
        }) + (if r <= 5 {
            sides(f, 1)
        } else {
            0
        })
    } else if pt == KING {
        (if r >= 1 {
            1 + sides(f, 1)
        } else {
            0
        }) + (if r <= 6 {
            1 + sides(f, 1)
        } else {
            0
        }) + sides(f, 1)
    } else if pt == BISHOP {
        bishop_count(f, r)
    } else if pt == ROOK {
        14
    } else {
        14 + bishop_count(f, r)
    }
}

/// The closed form is the sum of the closed forms of the ranks.
#[verifier::rlimit(40)]
#[verifier::spinoff_prover]
proof fn lemma_sum_of_rows(variant: int, f: int, r: int)
    requires
        0 <= f < 8,
        0 <= r < 8,
    ensures
        row_formula(variant, f, -r) + row_formula(variant, f, 1 - r) + row_formula(
            variant,
            f,
            2 - r,
        ) + row_formula(variant, f, 3 - r) + row_formula(variant, f, 4 - r) + row_formula(
            variant,
            f,
            5 - r,
        ) + row_formula(variant, f, 6 - r) + row_formula(variant, f, 7 - r) == count_formula(
            variant,
            f,
            r,
        ),
{
}

proof fn lemma_count_formula(variant: int, from: int)
    requires
        0 <= from < 64,
    ensures
        reach_count(variant, from) == count_formula(variant, file(from), rank(from)),
{
    let f = file(from);
    let r = rank(from);
    lemma_count_by_rows(variant, from);
    lemma_row_formula(variant, f, -r);
    lemma_row_formula(variant, f, 1 - r);
    lemma_row_formula(variant, f, 2 - r);
    lemma_row_formula(variant, f, 3 - r);
    lemma_row_formula(variant, f, 4 - r);
    lemma_row_formula(variant, f, 5 - r);
    lemma_row_formula(variant, f, 6 - r);
    lemma_row_formula(variant, f, 7 - r);
    lemma_sum_of_rows(variant, f, r);
}

/// The number of squares that a piece covers from the squares of rank `r` on a
/// file below `j`.
spec fn rank_sum(variant: int, r: int, j: int) -> int
    decreases j,
{
    if j <= 0 {
        0
    } else {
        rank_sum(variant, r, j - 1) + count_formula(variant, j - 1, r)
    }
}

proof fn lemma_rank_sum(variant: int, r: int, j: int)
    requires
        0 <= r < 8,
        0 <= j <= 8,
    ensures
        reach_before(variant, 8 * r + j) == reach_before(variant, 8 * r) + rank_sum(
            variant,
            r,
            j,
        ),
    decreases j,
{
    if j > 0 {
        lemma_rank_sum(variant, r, j - 1);
        let s = 8 * r + j - 1;
        assert(file(s) == j - 1 && rank(s) == r);
        lemma_count_formula(variant, s);
    }
}

/// The number of squares that each kind of piece reaches from all squares.
pub open spec fn total_of(pt: int) -> nat {
    if pt == PAWN {
        98
    } else if pt == KNIGHT {
        336
    } else if pt == BISHOP {
        560
    } else if pt == ROOK {
        896
    } else if pt == QUEEN {
        1456
    } else {
        420
    }
}

/// The number of squares that a piece covers from the squares of one rank.
spec fn rank_total(variant: int, r: int) -> int {
    let pt = piece_type(variant);
    let edge = min(r, 7 - r);
    let bishops = if edge == 0 {
        56int
    } else if edge == 1 {
        68
    } else if edge == 2 {
        76
    } else {
        80
    };
    if pt == PAWN {
        if (variant < 6 && r == 7) || (variant >= 6 && r == 0) {
            0
        } else {
            14
        }
    } else if pt == KNIGHT {
        12 * sides(r, 1) + 14 * sides(r, 2)
    } else if pt == KING {
        22 * sides(r, 1) + 14
    } else if pt == BISHOP {
        bishops
    } else if pt == ROOK {
        112
    } else {
        112 + bishops
    }
}

proof fn lemma_rank_total(variant: int, r: int)
    requires
        0 <= r < 8,
    ensures
        rank_sum(variant, r, 8) == rank_total(variant, r),
{
    reveal_with_fuel(rank_sum, 9);
    let pt = piece_type(variant);
    if pt == PAWN {
        assert(rank_sum(variant, r, 8) == rank_total(variant, r));
    } else if pt == KNIGHT {
        assert(rank_sum(variant, r, 8) == rank_total(variant, r));
    } else if pt == KING {
        assert(rank_sum(variant, r, 8) == rank_total(variant, r));
    } else if pt == BISHOP {
        assert(rank_sum(variant, r, 8) == rank_total(variant, r));
    } else if pt == ROOK {
        assert(rank_sum(variant, r, 8) == rank_total(variant, r));
    } else {
        assert(rank_sum(variant, r, 8) == rank_total(variant, r));
    }
}

proof fn lemma_next_rank(variant: int, r: int)
    requires
        0 <= r < 8,
    ensures
        reach_before(variant, 8 * r + 8) == reach_before(variant, 8 * r) + rank_total(variant, r),
{
    lemma_rank_sum(variant, r, 8);
    lemma_rank_total(variant, r);
}

/// The totals over the board.
pub proof fn lemma_total(variant: int)
    requires
        0 <= variant < 12,
    ensures
        reach_total(variant) == total_of(piece_type(variant)),
{
    lemma_next_rank(variant, 0);
    lemma_next_rank(variant, 1);
    lemma_next_rank(variant, 2);
    lemma_next_rank(variant, 3);
    lemma_next_rank(variant, 4);
    lemma_next_rank(variant, 5);
    lemma_next_rank(variant, 6);
    lemma_next_rank(variant, 7);
}

} // verus!
