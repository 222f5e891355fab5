//! How the pieces attack.
//!
//! An attacker is a variant: 0 to 5 for our pawn, knight, bishop, rook, queen and
//! king, 6 to 11 for theirs. We are the side to move, and our pawns move towards
//! the last rank.

use crate::bits::{bit, lemma_empty, lemma_union, single, squares};
use crate::geometry::{
    file, flip, on_board, on_ray, rank, ray_bb, ray_file, ray_gets_to, ray_on_board, ray_rank,
    ray_square, sq_file, sq_rank, square, try_sq,
};
use vstd::math::abs;
use vstd::prelude::*;

verus! {

pub const PAWN: usize = 0;

pub const KNIGHT: usize = 1;

pub const BISHOP: usize = 2;

pub const ROOK: usize = 3;

pub const QUEEN: usize = 4;

pub const KING: usize = 5;

const KNIGHT_DELTAS: [(i32, i32); 8] = [
    (1, 2),
    (2, 1),
    (2, -1),
    (1, -2),
    (-1, -2),
    (-2, -1),
    (-2, 1),
    (-1, 2),
];

const KING_DELTAS: [(i32, i32); 8] = [
    (1, 0),
    (1, 1),
    (0, 1),
    (-1, 1),
    (-1, 0),
    (-1, -1),
    (0, -1),
    (1, -1),
];

const BISHOP_DIRS: [(i32, i32); 4] = [(1, 1), (1, -1), (-1, 1), (-1, -1)];

const ROOK_DIRS: [(i32, i32); 4] = [(1, 0), (-1, 0), (0, 1), (0, -1)];

/// The kind of piece of a variant.
pub open spec fn piece_type(variant: int) -> int {
    variant % 6
}

/// Whether a variant is one of ours.
pub open spec fn is_ours(variant: int) -> bool {
    variant < 6
}

/// Whether a kind of piece moves any number of steps.
pub open spec fn is_slider(pt: int) -> bool {
    pt == BISHOP || pt == ROOK || pt == QUEEN
}

/// Whether two different squares lie on one diagonal.
pub open spec fn diagonal(df: int, dr: int) -> bool {
    df != 0 && (dr == df || dr == -df)
}

/// Whether two different squares lie on one file or one rank.
pub open spec fn straight(df: int, dr: int) -> bool {
    (df == 0) != (dr == 0)
}

/// Whether a piece gets from one square to another `df` files and `dr` ranks
/// away when nothing stands between them.
pub open spec fn covers(variant: int, df: int, dr: int) -> bool {
    let pt = piece_type(variant);
    if pt == PAWN {
        (df == 1 || df == -1) && dr == if is_ours(variant) {
            1int
        } else {
            -1
        }
    } else if pt == KNIGHT {
        (abs(df) == 1 && abs(dr) == 2) || (abs(df) == 2 && abs(dr) == 1)
    } else if pt == KING {
        abs(df) <= 1 && abs(dr) <= 1 && !(df == 0 && dr == 0)
    } else if pt == BISHOP {
        diagonal(df, dr)
    } else if pt == ROOK {
        straight(df, dr)
    } else {
        diagonal(df, dr) || straight(df, dr)
    }
}

/// Whether `variant` on `from` reaches `to` on an empty board.
pub open spec fn reaches(variant: int, from: int, to: int) -> bool {
    0 <= to < 64 && covers(variant, file(to) - file(from), rank(to) - rank(from))
}

/// The coordinate `n` steps from `a` towards `b`.
pub open spec fn toward(a: int, b: int, n: int) -> int {
    if a < b {
        a + n
    } else if b < a {
        a - n
    } else {
        a
    }
}

/// Whether the `n`-th square on the straight way between two squares is an empty
/// square of the board.
pub open spec fn passable(from: int, to: int, occ: Set<int>, n: int) -> bool {
    let f = toward(file(from), file(to), n);
    let r = toward(rank(from), rank(to), n);
    on_board(f, r) && !occ.contains(square(f, r))
}

/// The number of steps between two squares of one line.
pub open spec fn distance(from: int, to: int) -> int {
    let df = abs(file(to) - file(from)) as int;
    let dr = abs(rank(to) - rank(from)) as int;
    if df < dr {
        dr
    } else {
        df
    }
}

/// Whether every square strictly between two squares of one line is empty.
pub open spec fn clear_between(from: int, to: int, occ: Set<int>) -> bool {
    forall|n: int| 0 < n < distance(from, to) ==> #[trigger] passable(from, to, occ, n)
}

/// Whether `variant` on `from` attacks `to` when `occ` is occupied. Sliders stop at
/// the first occupied square, which they attack too.
pub open spec fn attacks(variant: int, from: int, to: int, occ: Set<int>) -> bool {
    &&& reaches(variant, from, to)
    &&& is_slider(piece_type(variant)) ==> clear_between(from, to, occ)
}

/// On an empty board a piece attacks every square that it reaches.
pub proof fn lemma_empty_board(variant: int, from: int, to: int)
    requires
        0 <= from < 64,
    ensures
        attacks(variant, from, to, Set::empty()) <==> reaches(variant, from, to),
{
    if reaches(variant, from, to) {
        assert forall|n: int| 0 < n < distance(from, to) implies #[trigger] passable(
            from,
            to,
            Set::empty(),
            n,
        ) by {
            assert(is_slider(piece_type(variant)) ==> on_board(
                toward(file(from), file(to), n),
                toward(rank(from), rank(to), n),
            ));
        }
    }
}

/// More occupied squares never add an attack. So what a piece attacks on any board
/// is among what it reaches on the empty one.
pub proof fn lemma_blockers_only_remove(
    variant: int,
    from: int,
    to: int,
    fewer: Set<int>,
    more: Set<int>,
)
    requires
        fewer.subset_of(more),
        attacks(variant, from, to, more),
    ensures
        attacks(variant, from, to, fewer),
        reaches(variant, from, to),
{
    assert forall|n: int| 0 < n < distance(from, to) && clear_between(
        from,
        to,
        more,
    ) implies #[trigger] passable(from, to, fewer, n) by {
        assert(passable(from, to, more, n));
    }
}

proof fn lemma_small_squares(d: int)
    ensures
        d * d >= 0,
        d * d == 0 <==> d == 0,
        d * d == 1 <==> abs(d) == 1,
        d * d == 4 <==> abs(d) == 2,
        abs(d) >= 3 <==> d * d >= 9,
        abs(d) >= 3 || d * d == 0 || d * d == 1 || d * d == 4,
{
    assert(d >= 3 ==> d * d >= 9) by (nonlinear_arith);
    assert(d <= -3 ==> d * d >= 9) by (nonlinear_arith);
    assert(d == 0 ==> d * d == 0) by (nonlinear_arith);
    assert(d == 1 || d == -1 ==> d * d == 1) by (nonlinear_arith);
    assert(d == 2 || d == -2 ==> d * d == 4) by (nonlinear_arith);
}

proof fn lemma_products(df: int, dr: int)
    ensures
        df * df == dr * dr <==> df == dr || df == -dr,
        df * dr == 0 <==> df == 0 || dr == 0,
{
    assert(df == dr ==> df * df == dr * dr) by (nonlinear_arith);
    assert(df == -dr ==> df * df == dr * dr) by (nonlinear_arith);
    assert(df * df == dr * dr ==> df == dr || df == -dr) by (nonlinear_arith);
    assert(df * dr == 0 <==> df == 0 || dr == 0) by (nonlinear_arith);
}

/// Pawns, knights and kings attack by distance alone, whatever is occupied. A pawn
/// attacks the two squares next to the one ahead of it, ahead being up for ours and
/// down for theirs. By the distance in a straight line, a knight
/// attacks at the square root of 5, and a king at 1 and at the square root of 2.
/// Nothing off the board is attacked.
pub proof fn lemma_leaps(variant: int, from: int, to: int, occ: Set<int>)
    ensures
        ({
            let df = to % 8 - from % 8;
            let dr = to / 8 - from / 8;
            let hit = attacks(variant, from, to, occ);
            &&& !(0 <= to < 64) ==> !hit
            &&& 0 <= to < 64 && variant % 6 == 0 ==> (hit <==> df * df == 1 && dr == if variant
                < 6 {
                1int
            } else {
                -1
            })
            &&& 0 <= to < 64 && variant % 6 == 1 ==> (hit <==> df * df + dr * dr == 5)
            &&& 0 <= to < 64 && variant % 6 == 5 ==> (hit <==> 1 <= df * df + dr * dr <= 2)
        }),
{
    let df = to % 8 - from % 8;
    let dr = to / 8 - from / 8;
    lemma_small_squares(df);
    lemma_small_squares(dr);
}

/// What a piece reaches on an empty board, kind by kind, over the squared distance: a
/// bishop goes as far along the files as along the ranks, a rook along one of them
/// only, and a queen goes as either.
pub proof fn lemma_reach(variant: int, from: int, to: int)
    ensures
        ({
            let df = to % 8 - from % 8;
            let dr = to / 8 - from / 8;
            let far = df * df + dr * dr;
            let hit = reaches(variant, from, to);
            &&& !(0 <= to < 64) ==> !hit
            &&& 0 <= to < 64 && variant % 6 == 0 ==> (hit <==> df * df == 1 && dr == if variant
                < 6 {
                1int
            } else {
                -1
            })
            &&& 0 <= to < 64 && variant % 6 == 1 ==> (hit <==> far == 5)
            &&& 0 <= to < 64 && variant % 6 == 2 ==> (hit <==> far > 0 && df * df == dr * dr)
            &&& 0 <= to < 64 && variant % 6 == 3 ==> (hit <==> far > 0 && df * dr == 0)
            &&& 0 <= to < 64 && variant % 6 == 4 ==> (hit <==> far > 0 && (df * df == dr * dr || df
                * dr == 0))
            &&& 0 <= to < 64 && variant % 6 == 5 ==> (hit <==> 1 <= far <= 2)
        }),
{
    let df = to % 8 - from % 8;
    let dr = to / 8 - from / 8;
    lemma_small_squares(df);
    lemma_small_squares(dr);
    lemma_products(df, dr);
}

proof fn lemma_on_way(from: int, to: int, m: int, n: int)
    requires
        0 <= from < 64,
        0 <= to < 64,
        diagonal(to % 8 - from % 8, to / 8 - from / 8) || straight(
            to % 8 - from % 8,
            to / 8 - from / 8,
        ),
        0 < n < distance(from, to),
        m == square(toward(file(from), file(to), n), toward(rank(from), rank(to), n)),
    ensures
        0 <= m < 64,
        m != from,
        m != to,
        from % 8 <= m % 8 <= to % 8 || to % 8 <= m % 8 <= from % 8,
        from / 8 <= m / 8 <= to / 8 || to / 8 <= m / 8 <= from / 8,
        (m % 8 - from % 8) * (to / 8 - from / 8) == (m / 8 - from / 8) * (to % 8 - from % 8),
{
    let f = toward(file(from), file(to), n);
    let r = toward(rank(from), rank(to), n);
    assert(on_board(f, r));
    assert(m % 8 == f && m / 8 == r);
    let a = m % 8 - from % 8;
    let b = m / 8 - from / 8;
    let df = to % 8 - from % 8;
    let dr = to / 8 - from / 8;
    assert(a * dr == b * df) by (nonlinear_arith)
        requires
            (df == 0 && a == 0) || (dr == 0 && b == 0) || (dr == df && a == b) || (dr == -df && a
                == -b),
    ;
}

proof fn lemma_way_step(from: int, to: int, m: int) -> (n: int)
    requires
        0 <= from < 64,
        0 <= to < 64,
        diagonal(to % 8 - from % 8, to / 8 - from / 8) || straight(
            to % 8 - from % 8,
            to / 8 - from / 8,
        ),
        0 <= m < 64,
        m != from,
        m != to,
        from % 8 <= m % 8 <= to % 8 || to % 8 <= m % 8 <= from % 8,
        from / 8 <= m / 8 <= to / 8 || to / 8 <= m / 8 <= from / 8,
        (m % 8 - from % 8) * (to / 8 - from / 8) == (m / 8 - from / 8) * (to % 8 - from % 8),
    ensures
        0 < n < distance(from, to),
        m == square(toward(file(from), file(to), n), toward(rank(from), rank(to), n)),
{
    let a = m % 8 - from % 8;
    let b = m / 8 - from / 8;
    let df = to % 8 - from % 8;
    let dr = to / 8 - from / 8;
    if df != 0 && dr == df {
        assert(a == b) by (nonlinear_arith)
            requires
                a * dr == b * df,
                dr == df,
                df != 0,
        ;
    } else if df != 0 && dr == -df {
        assert(a == -b) by (nonlinear_arith)
            requires
                a * dr == b * df,
                dr == -df,
                df != 0,
        ;
    }
    distance(from, m)
}

/// A slider attacks a square exactly if it goes there on an empty board and no
/// occupied square lies between: none that is on the segment from the one square to
/// the other and is neither of them.
pub proof fn lemma_slides(variant: int, from: int, to: int, occ: Set<int>)
    requires
        variant % 6 == 2 || variant % 6 == 3 || variant % 6 == 4,
        0 <= from < 64,
        0 <= to < 64,
    ensures
        ({
            let df = to % 8 - from % 8;
            let dr = to / 8 - from / 8;
            attacks(variant, from, to, occ) <==> {
                &&& from != to
                &&& (variant % 6 != 3 && df * df == dr * dr) || (variant % 6 != 2 && df * dr == 0)
                &&& forall|m: int|
                    #![trigger occ.contains(m)]
                    {
                        &&& 0 <= m < 64
                        &&& m != from
                        &&& m != to
                        &&& from % 8 <= m % 8 <= to % 8 || to % 8 <= m % 8 <= from % 8
                        &&& from / 8 <= m / 8 <= to / 8 || to / 8 <= m / 8 <= from / 8
                        &&& (m % 8 - from % 8) * dr == (m / 8 - from / 8) * df
                    } ==> !occ.contains(m)
            }
        }),
{
    let df = to % 8 - from % 8;
    let dr = to / 8 - from / 8;
    lemma_products(df, dr);
    assert(from == to <==> df == 0 && dr == 0);
    if reaches(variant, from, to) {
        if clear_between(from, to, occ) {
            assert forall|m: int|
                #![trigger occ.contains(m)]
                {
                    &&& 0 <= m < 64
                    &&& m != from
                    &&& m != to
                    &&& from % 8 <= m % 8 <= to % 8 || to % 8 <= m % 8 <= from % 8
                    &&& from / 8 <= m / 8 <= to / 8 || to / 8 <= m / 8 <= from / 8
                    &&& (m % 8 - from % 8) * dr == (m / 8 - from / 8) * df
                } implies !occ.contains(m) by {
                let n = lemma_way_step(from, to, m);
                assert(passable(from, to, occ, n));
            }
        }
        if forall|m: int|
            #![trigger occ.contains(m)]
            {
                &&& 0 <= m < 64
                &&& m != from
                &&& m != to
                &&& from % 8 <= m % 8 <= to % 8 || to % 8 <= m % 8 <= from % 8
                &&& from / 8 <= m / 8 <= to / 8 || to / 8 <= m / 8 <= from / 8
                &&& (m % 8 - from % 8) * dr == (m / 8 - from / 8) * df
            } ==> !occ.contains(m) {
            assert forall|n: int| 0 < n < distance(from, to) implies #[trigger] passable(
                from,
                to,
                occ,
                n,
            ) by {
                let f = toward(file(from), file(to), n);
                let r = toward(rank(from), rank(to), n);
                lemma_on_way(from, to, square(f, r), n);
                assert(on_board(f, r));
                assert(!occ.contains(square(f, r)));
            }
        }
    }
}

/// The variant of the same kind on the other side.
pub open spec fn toggle(variant: int) -> int {
    (variant + 6) % 12
}

/// Toggling a variant changes its side, keeps its kind, and is undone by toggling
/// again: ours goes up by 6, and theirs down by 6.
pub proof fn lemma_toggle(variant: int)
    requires
        0 <= variant < 12,
    ensures
        0 <= toggle(variant) < 12,
        is_ours(toggle(variant)) == !is_ours(variant),
        piece_type(toggle(variant)) == piece_type(variant),
        toggle(toggle(variant)) == variant,
        toggle(variant) == variant + 6 || toggle(variant) == variant - 6,
        toggle(variant) < 6 <==> variant >= 6,
        toggle(variant) % 6 == variant % 6,
{
}

/// The squares of `occ`, mirrored.
pub open spec fn flip_all(occ: Set<int>) -> Set<int> {
    Set::new(|s: int| 0 <= s < 64 && occ.contains(flip(s)))
}

/// What a piece reaches on an empty board does not change when the board is
/// mirrored and the sides are exchanged.
pub proof fn lemma_reaches_mirrored(variant: int, from: int, to: int)
    requires
        0 <= variant < 12,
        0 <= from < 64,
        0 <= to < 64,
    ensures
        reaches(toggle(variant), flip(from), flip(to)) <==> reaches(variant, from, to),
        0 <= flip(from) < 64,
        0 <= flip(to) < 64,
        flip(flip(from)) == from,
        toggle(toggle(variant)) == variant,
        0 <= toggle(variant) < 12,
{
    assert(file(flip(from)) == file(from) && rank(flip(from)) == 7 - rank(from));
    assert(file(flip(to)) == file(to) && rank(flip(to)) == 7 - rank(to));
    lemma_toggle(variant);
}

/// What a piece attacks does not change when the board is mirrored and the sides
/// are exchanged.
pub proof fn lemma_attacks_mirrored(variant: int, from: int, to: int, occ: Set<int>)
    requires
        0 <= variant < 12,
        0 <= from < 64,
        0 <= to < 64,
    ensures
        attacks(toggle(variant), flip(from), flip(to), flip_all(occ)) <==> attacks(
            variant,
            from,
            to,
            occ,
        ),
{
    lemma_reaches_mirrored(variant, from, to);
    assert(file(flip(from)) == file(from) && rank(flip(from)) == 7 - rank(from));
    assert(file(flip(to)) == file(to) && rank(flip(to)) == 7 - rank(to));
    lemma_toggle(variant);
    assert(distance(flip(from), flip(to)) == distance(from, to));
    assert forall|n: int| #[trigger]
        passable(flip(from), flip(to), flip_all(occ), n) <==> passable(from, to, occ, n) by {
        let f = toward(file(from), file(to), n);
        let r = toward(rank(from), rank(to), n);
        assert(toward(rank(flip(from)), rank(flip(to)), n) == 7 - r);
        if on_board(f, r) {
            let s = square(f, 7 - r);
            assert(file(s) == f && rank(s) == 7 - r);
            assert(flip(s) == square(f, r));
        }
    }
    if clear_between(from, to, occ) {
        assert(clear_between(flip(from), flip(to), flip_all(occ)));
    }
    if clear_between(flip(from), flip(to), flip_all(occ)) {
        assert forall|n: int| 0 < n < distance(from, to) implies #[trigger] passable(
            from,
            to,
            occ,
            n,
        ) by {
            assert(passable(flip(from), flip(to), flip_all(occ), n));
        }
    }
}

/// Whether the step `d` from `sq` stays on the board and ends on `s`.
spec fn lands(sq: u8, d: (i32, i32), s: int) -> bool {
    let f = file(sq as int) + d.0;
    let r = rank(sq as int) + d.1;
    on_board(f, r) && s == square(f, r)
}

spec fn lands_by(sq: u8, deltas: Seq<(i32, i32)>, s: int) -> bool {
    exists|i: int| 0 <= i < deltas.len() && lands(sq, #[trigger] deltas[i], s)
}

spec fn rides_by(sq: u8, dirs: Seq<(i32, i32)>, occ: u64, s: int) -> bool {
    exists|i: int| 0 <= i < dirs.len() && on_ray(sq, #[trigger] dirs[i], occ, s)
}

spec fn small(d: (i32, i32)) -> bool {
    -2 <= d.0 <= 2 && -2 <= d.1 <= 2
}

/// The squares that the single steps `deltas` reach from `sq`.
fn steps_bb(sq: u8, deltas: &[(i32, i32)]) -> (bb: u64)
    requires
        forall|i: int| 0 <= i < deltas@.len() ==> small(#[trigger] deltas@[i]),
    ensures
        forall|s: int| #[trigger] bit(bb, s) <==> lands_by(sq, deltas@, s),
{
    let f: i32 = sq_file(sq);
    let r: i32 = sq_rank(sq);
    let mut bb: u64 = 0;
    let mut i: usize = 0;
    proof {
        lemma_empty();
    }
    while i < deltas.len()
        invariant
            f == file(sq as int),
            r == rank(sq as int),
            i <= deltas@.len(),
            forall|j: int| 0 <= j < deltas@.len() ==> small(#[trigger] deltas@[j]),
            forall|s: int| #[trigger]
                bit(bb, s) <==> exists|j: int|
                    0 <= j < i && lands(sq, #[trigger] deltas@[j], s),
        decreases deltas@.len() - i,
    {
        let d: (i32, i32) = deltas[i];
        assert(small(deltas@[i as int]));
        let ghost before = bb;
        if let Some(s) = try_sq(f + d.0, r + d.1) {
            let one: u64 = single(s);
            bb = bb | one;
            proof {
                lemma_union(before, one);
            }
        }
        i = i + 1;
        proof {
            assert forall|s: int| #[trigger] bit(bb, s) <==> exists|j: int|
                0 <= j < i && lands(sq, #[trigger] deltas@[j], s) by {
                if bit(before, s) {
                    let j = choose|j: int| 0 <= j < i - 1 && lands(sq, #[trigger] deltas@[j], s);
                    assert(0 <= j < i && lands(sq, deltas@[j], s));
                }
                if bit(bb, s) && !bit(before, s) {
                    assert(lands(sq, deltas@[i - 1], s));
                }
            }
        }
    }
    bb
}

/// The squares that the rays along `dirs` reach from `sq`.
fn rays_bb(sq: u8, dirs: &[(i32, i32)], occ: u64) -> (bb: u64)
    requires
        forall|i: int| 0 <= i < dirs@.len() ==> small(#[trigger] dirs@[i]),
        forall|i: int| 0 <= i < dirs@.len() ==> #[trigger] dirs@[i] != (0i32, 0i32),
    ensures
        forall|s: int| #[trigger] bit(bb, s) <==> rides_by(sq, dirs@, occ, s),
{
    let mut bb: u64 = 0;
    let mut i: usize = 0;
    proof {
        lemma_empty();
    }
    while i < dirs.len()
        invariant
            i <= dirs@.len(),
            forall|j: int| 0 <= j < dirs@.len() ==> small(#[trigger] dirs@[j]),
            forall|j: int| 0 <= j < dirs@.len() ==> #[trigger] dirs@[j] != (0i32, 0i32),
            forall|s: int| #[trigger]
                bit(bb, s) <==> exists|j: int|
                    0 <= j < i && on_ray(sq, #[trigger] dirs@[j], occ, s),
        decreases dirs@.len() - i,
    {
        let d: (i32, i32) = dirs[i];
        assert(small(dirs@[i as int]));
        let ghost before = bb;
        let ray: u64 = ray_bb(sq, d, occ);
        bb = bb | ray;
        i = i + 1;
        proof {
            lemma_union(before, ray);
            assert forall|s: int| #[trigger] bit(bb, s) <==> exists|j: int|
                0 <= j < i && on_ray(sq, #[trigger] dirs@[j], occ, s) by {
                if bit(before, s) {
                    let j = choose|j: int| 0 <= j < i - 1 && on_ray(sq, #[trigger] dirs@[j], occ, s);
                    assert(0 <= j < i && on_ray(sq, dirs@[j], occ, s));
                }
                if bit(ray, s) {
                    assert(on_ray(sq, dirs@[i - 1], occ, s));
                }
            }
        }
    }
    bb
}

proof fn lemma_knight_steps(sq: u8, s: int)
    ensures
        lands_by(sq, KNIGHT_DELTAS@, s) <==> reaches(KNIGHT as int, sq as int, s),
{
    let d = KNIGHT_DELTAS@;
    let df = file(s) - file(sq as int);
    let dr = rank(s) - rank(sq as int);
    if reaches(KNIGHT as int, sq as int, s) {
        let i: int = if df == 1 && dr == 2 {
            0
        } else if df == 2 && dr == 1 {
            1
        } else if df == 2 && dr == -1 {
            2
        } else if df == 1 && dr == -2 {
            3
        } else if df == -1 && dr == -2 {
            4
        } else if df == -2 && dr == -1 {
            5
        } else if df == -2 && dr == 1 {
            6
        } else {
            7
        };
        assert(lands(sq, d[i], s));
    }
}

proof fn lemma_king_steps(sq: u8, s: int)
    ensures
        lands_by(sq, KING_DELTAS@, s) <==> reaches(KING as int, sq as int, s),
{
    let d = KING_DELTAS@;
    let df = file(s) - file(sq as int);
    let dr = rank(s) - rank(sq as int);
    if reaches(KING as int, sq as int, s) {
        let i: int = if df == 1 && dr == 0 {
            0
        } else if df == 1 && dr == 1 {
            1
        } else if df == 0 && dr == 1 {
            2
        } else if df == -1 && dr == 1 {
            3
        } else if df == -1 && dr == 0 {
            4
        } else if df == -1 && dr == -1 {
            5
        } else if df == 0 && dr == -1 {
            6
        } else {
            7
        };
        assert(lands(sq, d[i], s));
    }
}

spec fn unit(d: (i32, i32)) -> bool {
    -1 <= d.0 <= 1 && -1 <= d.1 <= 1 && d != (0i32, 0i32)
}

/// Whether a square `df` files and `dr` ranks away lies in the direction `d`.
spec fn heads_for(d: (i32, i32), df: int, dr: int) -> bool {
    let n = if abs(df) < abs(dr) {
        abs(dr) as int
    } else {
        abs(df) as int
    };
    &&& n >= 1
    &&& df == if d.0 == 0 {
        0
    } else if d.0 == 1 {
        n
    } else {
        -n
    }
    &&& dr == if d.1 == 0 {
        0
    } else if d.1 == 1 {
        n
    } else {
        -n
    }
}

proof fn lemma_unit_step(d: (i32, i32), n: int)
    requires
        unit(d),
    ensures
        n * d.0 == if d.0 == 0 {
            0
        } else if d.0 == 1 {
            n
        } else {
            -n
        },
        n * d.1 == if d.1 == 0 {
            0
        } else if d.1 == 1 {
            n
        } else {
            -n
        },
{
    let x = d.0 as int;
    let y = d.1 as int;
    assert(x == 0 ==> n * x == 0) by (nonlinear_arith);
    assert(x == 1 ==> n * x == n) by (nonlinear_arith);
    assert(x == -1 ==> n * x == -n) by (nonlinear_arith);
    assert(y == 0 ==> n * y == 0) by (nonlinear_arith);
    assert(y == 1 ==> n * y == n) by (nonlinear_arith);
    assert(y == -1 ==> n * y == -n) by (nonlinear_arith);
}

proof fn lemma_ray_to_line(sq: u8, d: (i32, i32), occ: u64, s: int)
    requires
        unit(d),
        on_ray(sq, d, occ, s),
    ensures
        0 <= s < 64,
        heads_for(d, file(s) - file(sq as int), rank(s) - rank(sq as int)),
        clear_between(sq as int, s, squares(occ)),
{
    let from = sq as int;
    let n = choose|n: int| #[trigger] ray_gets_to(sq, d, occ, n) && s == ray_square(sq, d, n);
    lemma_unit_step(d, n);
    assert(ray_on_board(sq, d, n));
    assert(file(s) == ray_file(sq, d, n) && rank(s) == ray_rank(sq, d, n));
    assert(distance(from, s) == n);
    assert forall|k: int| 0 < k < n implies #[trigger] passable(from, s, squares(occ), k) by {
        lemma_unit_step(d, k);
        assert(ray_on_board(sq, d, k));
        assert(toward(file(from), file(s), k) == ray_file(sq, d, k));
        assert(toward(rank(from), rank(s), k) == ray_rank(sq, d, k));
        assert(!bit(occ, ray_square(sq, d, k)));
    }
}

proof fn lemma_line_to_ray(sq: u8, d: (i32, i32), occ: u64, s: int)
    requires
        unit(d),
        0 <= s < 64,
        heads_for(d, file(s) - file(sq as int), rank(s) - rank(sq as int)),
        clear_between(sq as int, s, squares(occ)),
    ensures
        on_ray(sq, d, occ, s),
{
    let from = sq as int;
    let n = distance(from, s);
    lemma_unit_step(d, n);
    assert(file(s) == ray_file(sq, d, n) && rank(s) == ray_rank(sq, d, n));
    assert(s == ray_square(sq, d, n));
    assert forall|k: int| 1 <= k <= n implies #[trigger] ray_on_board(sq, d, k) by {
        if k < n {
            lemma_unit_step(d, k);
            assert(passable(from, s, squares(occ), k));
            assert(toward(file(from), file(s), k) == ray_file(sq, d, k));
            assert(toward(rank(from), rank(s), k) == ray_rank(sq, d, k));
        }
    }
    assert forall|k: int| 1 <= k < n implies !bit(occ, #[trigger] ray_square(sq, d, k)) by {
        lemma_unit_step(d, k);
        assert(passable(from, s, squares(occ), k));
        assert(toward(file(from), file(s), k) == ray_file(sq, d, k));
        assert(toward(rank(from), rank(s), k) == ray_rank(sq, d, k));
        assert(!squares(occ).contains(ray_square(sq, d, k)));
    }
    assert(ray_gets_to(sq, d, occ, n));
}

/// A ray reaches the squares of its direction up to the first occupied one.
proof fn lemma_ray_line(sq: u8, d: (i32, i32), occ: u64, s: int)
    requires
        unit(d),
    ensures
        on_ray(sq, d, occ, s) <==> {
            &&& 0 <= s < 64
            &&& heads_for(d, file(s) - file(sq as int), rank(s) - rank(sq as int))
            &&& clear_between(sq as int, s, squares(occ))
        },
{
    if on_ray(sq, d, occ, s) {
        lemma_ray_to_line(sq, d, occ, s);
    }
    if 0 <= s < 64 && heads_for(d, file(s) - file(sq as int), rank(s) - rank(sq as int))
        && clear_between(sq as int, s, squares(occ)) {
        lemma_line_to_ray(sq, d, occ, s);
    }
}

proof fn lemma_bishop_rides(sq: u8, occ: u64, s: int)
    ensures
        rides_by(sq, BISHOP_DIRS@, occ, s) <==> attacks(
            BISHOP as int,
            sq as int,
            s,
            squares(occ),
        ),
{
    let d = BISHOP_DIRS@;
    let df = file(s) - file(sq as int);
    let dr = rank(s) - rank(sq as int);
    lemma_ray_line(sq, d[0], occ, s);
    lemma_ray_line(sq, d[1], occ, s);
    lemma_ray_line(sq, d[2], occ, s);
    lemma_ray_line(sq, d[3], occ, s);
    if attacks(BISHOP as int, sq as int, s, squares(occ)) {
        let i: int = if df > 0 && dr > 0 {
            0
        } else if df > 0 {
            1
        } else if dr > 0 {
            2
        } else {
            3
        };
        assert(on_ray(sq, d[i], occ, s));
    }
}

proof fn lemma_rook_rides(sq: u8, occ: u64, s: int)
    ensures
        rides_by(sq, ROOK_DIRS@, occ, s) <==> attacks(ROOK as int, sq as int, s, squares(occ)),
{
    let d = ROOK_DIRS@;
    let df = file(s) - file(sq as int);
    let dr = rank(s) - rank(sq as int);
    lemma_ray_line(sq, d[0], occ, s);
    lemma_ray_line(sq, d[1], occ, s);
    lemma_ray_line(sq, d[2], occ, s);
    lemma_ray_line(sq, d[3], occ, s);
    if attacks(ROOK as int, sq as int, s, squares(occ)) {
        let i: int = if df > 0 {
            0
        } else if df < 0 {
            1
        } else if dr > 0 {
            2
        } else {
            3
        };
        assert(on_ray(sq, d[i], occ, s));
    }
}

/// A bishop attacks what its four diagonal rays reach, a rook what its four straight
/// rays reach, and a queen what any of the eight reaches.
pub proof fn lemma_sliders_ride(variant: int, sq: u8, occ: u64, s: int)
    ensures
        ({
            let slants = {
                ||| on_ray(sq, (1i32, 1i32), occ, s)
                ||| on_ray(sq, (1i32, -1i32), occ, s)
                ||| on_ray(sq, (-1i32, 1i32), occ, s)
                ||| on_ray(sq, (-1i32, -1i32), occ, s)
            };
            let rows = {
                ||| on_ray(sq, (1i32, 0i32), occ, s)
                ||| on_ray(sq, (-1i32, 0i32), occ, s)
                ||| on_ray(sq, (0i32, 1i32), occ, s)
                ||| on_ray(sq, (0i32, -1i32), occ, s)
            };
            let hit = attacks(variant, sq as int, s, squares(occ));
            &&& variant % 6 == 2 ==> (hit <==> slants)
            &&& variant % 6 == 3 ==> (hit <==> rows)
            &&& variant % 6 == 4 ==> (hit <==> slants || rows)
        }),
{
    let df = s % 8 - sq as int % 8;
    let dr = s / 8 - sq as int / 8;
    lemma_ray_line(sq, (1i32, 1i32), occ, s);
    lemma_ray_line(sq, (1i32, -1i32), occ, s);
    lemma_ray_line(sq, (-1i32, 1i32), occ, s);
    lemma_ray_line(sq, (-1i32, -1i32), occ, s);
    lemma_ray_line(sq, (1i32, 0i32), occ, s);
    lemma_ray_line(sq, (-1i32, 0i32), occ, s);
    lemma_ray_line(sq, (0i32, 1i32), occ, s);
    lemma_ray_line(sq, (0i32, -1i32), occ, s);
}

/// The squares that `variant` on `sq` attacks when `occ` is occupied. With nothing
/// occupied these are the squares that it reaches on an empty board.
pub fn raw_attacks_bb(variant: usize, sq: u8, occ: u64) -> (bb: u64)
    ensures
        forall|s: int| #[trigger]
            bit(bb, s) <==> attacks(variant as int, sq as int, s, squares(occ)),
{
    let pt: usize = variant % 6;
    let is_us: bool = variant < 6;
    if pt == PAWN {
        let dr: i32 = if is_us {
            1
        } else {
            -1
        };
        let deltas: [(i32, i32); 2] = [(-1, dr), (1, dr)];
        let bb: u64 = steps_bb(sq, &deltas);
        proof {
            assert forall|s: int| #[trigger] bit(bb, s) <==> attacks(
                variant as int,
                sq as int,
                s,
                squares(occ),
            ) by {
                if reaches(variant as int, sq as int, s) {
                    let i: int = if file(s) < file(sq as int) {
                        0
                    } else {
                        1
                    };
                    assert(lands(sq, deltas@[i], s));
                }
            }
        }
        bb
    } else if pt == KNIGHT {
        let bb: u64 = steps_bb(sq, &KNIGHT_DELTAS);
        proof {
            assert forall|s: int| #[trigger] bit(bb, s) <==> attacks(
                variant as int,
                sq as int,
                s,
                squares(occ),
            ) by {
                lemma_knight_steps(sq, s);
            }
        }
        bb
    } else if pt == KING {
        let bb: u64 = steps_bb(sq, &KING_DELTAS);
        proof {
            assert forall|s: int| #[trigger] bit(bb, s) <==> attacks(
                variant as int,
                sq as int,
                s,
                squares(occ),
            ) by {
                lemma_king_steps(sq, s);
            }
        }
        bb
    } else if pt == BISHOP {
        let bb: u64 = rays_bb(sq, &BISHOP_DIRS, occ);
        proof {
            assert forall|s: int| #[trigger] bit(bb, s) <==> attacks(
                variant as int,
                sq as int,
                s,
                squares(occ),
            ) by {
                lemma_bishop_rides(sq, occ, s);
            }
        }
        bb
    } else if pt == ROOK {
        let bb: u64 = rays_bb(sq, &ROOK_DIRS, occ);
        proof {
            assert forall|s: int| #[trigger] bit(bb, s) <==> attacks(
                variant as int,
                sq as int,
                s,
                squares(occ),
            ) by {
                lemma_rook_rides(sq, occ, s);
            }
        }
        bb
    } else {
        let diagonals: u64 = rays_bb(sq, &BISHOP_DIRS, occ);
        let lines: u64 = rays_bb(sq, &ROOK_DIRS, occ);
        proof {
            lemma_union(diagonals, lines);
            assert forall|s: int| #[trigger] bit(diagonals | lines, s) <==> attacks(
                variant as int,
                sq as int,
                s,
                squares(occ),
            ) by {
                lemma_bishop_rides(sq, occ, s);
                lemma_rook_rides(sq, occ, s);
            }
        }
        diagonals | lines
    }
}

/// The variant of a piece type on one side.
pub fn variant_index(is_us: bool, piece_type: usize) -> (variant: usize)
    requires
        is_us || piece_type <= usize::MAX - 6,
    ensures
        variant == if is_us {
            piece_type as int
        } else {
            6 + piece_type
        },
        piece_type < 6 ==> is_ours(variant as int) == is_us && self::piece_type(variant as int)
            == piece_type,
{
    if is_us {
        piece_type
    } else {
        6 + piece_type
    }
}

} // verus!
