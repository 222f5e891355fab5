//! The squares of the board, and the rays that leave them.

use crate::bits::{bit, contains, lemma_empty, lemma_union, single};
use vstd::prelude::*;

verus! {

/// The file of a square, 0 for the a-file.
pub open spec fn file(s: int) -> int {
    s % 8
}

/// The rank of a square, 0 for the first rank.
pub open spec fn rank(s: int) -> int {
    s / 8
}

/// Whether there is a square on file `f` and rank `r`.
pub open spec fn on_board(f: int, r: int) -> bool {
    0 <= f < 8 && 0 <= r < 8
}

/// The square on file `f` and rank `r`.
pub open spec fn square(f: int, r: int) -> int {
    r * 8 + f
}

/// The square that takes the place of `s` when the board is mirrored, the first
/// rank for the last.
pub open spec fn flip(s: int) -> int {
    square(file(s), 7 - rank(s))
}

/// The file that `n` steps of `dir` lead to.
pub open spec fn ray_file(sq: u8, dir: (i32, i32), n: int) -> int {
    file(sq as int) + n * dir.0
}

/// The rank that `n` steps of `dir` lead to.
pub open spec fn ray_rank(sq: u8, dir: (i32, i32), n: int) -> int {
    rank(sq as int) + n * dir.1
}

/// The square that `n` steps of `dir` lead to.
pub open spec fn ray_square(sq: u8, dir: (i32, i32), n: int) -> int {
    square(ray_file(sq, dir, n), ray_rank(sq, dir, n))
}

/// Whether the `n`-th step of `dir` stays on the board.
pub open spec fn ray_on_board(sq: u8, dir: (i32, i32), n: int) -> bool {
    on_board(ray_file(sq, dir, n), ray_rank(sq, dir, n))
}

/// Whether a piece on `sq` that moves along `dir` gets to its `n`-th step: it
/// never leaves the board, and passes over empty squares only.
pub open spec fn ray_gets_to(sq: u8, dir: (i32, i32), occ: u64, n: int) -> bool {
    &&& n >= 1
    &&& forall|k: int| 1 <= k <= n ==> #[trigger] ray_on_board(sq, dir, k)
    &&& forall|k: int| 1 <= k < n ==> !bit(occ, #[trigger] ray_square(sq, dir, k))
}

/// Whether the ray from `sq` along `dir` reaches the square `s`.
pub open spec fn on_ray(sq: u8, dir: (i32, i32), occ: u64, s: int) -> bool {
    exists|n: int| #[trigger] ray_gets_to(sq, dir, occ, n) && s == ray_square(sq, dir, n)
}

/// The file of a square.
pub fn sq_file(s: u8) -> (f: i32)
    ensures
        f == file(s as int),
        f == s % 8,
{
    (s % 8) as i32
}

/// The rank of a square.
pub fn sq_rank(s: u8) -> (r: i32)
    ensures
        r == rank(s as int),
        r == s / 8,
{
    (s / 8) as i32
}

/// The square on file `f` and rank `r`, if the board has it.
pub fn try_sq(f: i32, r: i32) -> (s: Option<u8>)
    ensures
        s is Some <==> on_board(f as int, r as int),
        s matches Some(q) ==> q == square(f as int, r as int),
        s is Some <==> 0 <= f < 8 && 0 <= r < 8,
        s matches Some(q) ==> q == 8 * r + f && q % 8 == f && q / 8 == r,
{
    if 0 <= f && f < 8 && 0 <= r && r < 8 {
        Some((r * 8 + f) as u8)
    } else {
        None
    }
}

/// The mirrored square.
pub fn flip_sq(s: u8) -> (t: u8)
    requires
        s < 64,
    ensures
        t == flip(s as int),
        t < 64,
        t == s ^ 56,
        t % 8 == s % 8,
        t / 8 + s / 8 == 7,
{
    assert(s ^ 56 == (7 - s / 8) * 8 + s % 8 && s ^ 56 < 64) by (bit_vector)
        requires
            s < 64,
    ;
    s ^ 56
}

/// The mirror image of a square has its file, and the opposite rank.
pub proof fn lemma_flipped_square(s: int)
    requires
        0 <= s < 64,
    ensures
        0 <= flip(s) < 64,
        flip(s) % 8 == s % 8,
        flip(s) / 8 + s / 8 == 7,
        flip(flip(s)) == s,
{
}

proof fn lemma_next_step(sq: u8, dir: (i32, i32), n: int)
    ensures
        ray_file(sq, dir, n + 1) == ray_file(sq, dir, n) + dir.0,
        ray_rank(sq, dir, n + 1) == ray_rank(sq, dir, n) + dir.1,
        ray_file(sq, dir, 0) == file(sq as int),
        ray_rank(sq, dir, 0) == rank(sq as int),
{
    assert((n + 1) * dir.0 == n * dir.0 + dir.0) by (nonlinear_arith);
    assert((n + 1) * dir.1 == n * dir.1 + dir.1) by (nonlinear_arith);
}

/// A ray leaves the board after at most 31 steps.
proof fn lemma_ray_length(sq: u8, dir: (i32, i32), n: int)
    requires
        dir != (0i32, 0i32),
        n >= 1,
        ray_on_board(sq, dir, n),
    ensures
        n < 32,
{
    let dx = dir.0 as int;
    let dy = dir.1 as int;
    if dx != 0 {
        assert(n < 32) by (nonlinear_arith)
            requires
                dx != 0,
                -8 < n * dx < 8,
                n >= 1,
        ;
    } else {
        assert(n < 32) by (nonlinear_arith)
            requires
                dy != 0,
                -32 < n * dy < 8,
                n >= 1,
        ;
    }
}

proof fn lemma_ray_shifted(sq: u8, dir: (i32, i32), q: u8, k: int)
    requires
        q % 8 == sq % 8 + dir.0,
        q / 8 == sq / 8 + dir.1,
    ensures
        ray_file(q, dir, k) == ray_file(sq, dir, k + 1),
        ray_rank(q, dir, k) == ray_rank(sq, dir, k + 1),
        ray_square(q, dir, k) == ray_square(sq, dir, k + 1),
        ray_on_board(q, dir, k) == ray_on_board(sq, dir, k + 1),
{
    assert((k + 1) * dir.0 == k * dir.0 + dir.0) by (nonlinear_arith);
    assert((k + 1) * dir.1 == k * dir.1 + dir.1) by (nonlinear_arith);
}

/// A ray goes step by step. Where its first step leaves the board it reaches
/// nothing. Otherwise it reaches the square of that step, and, if that square is
/// empty, whatever the ray from there reaches.
pub proof fn lemma_ray_steps(sq: u8, dir: (i32, i32), occ: u64, s: int)
    ensures
        ({
            let f = sq % 8 + dir.0;
            let r = sq / 8 + dir.1;
            let q = 8 * r + f;
            on_ray(sq, dir, occ, s) <==> {
                &&& 0 <= f < 8
                &&& 0 <= r < 8
                &&& s == q || (!bit(occ, q) && on_ray(q as u8, dir, occ, s))
            }
        }),
{
    let f = sq % 8 + dir.0;
    let r = sq / 8 + dir.1;
    let q = 8 * r + f;
    assert(1 * dir.0 == dir.0 && 1 * dir.1 == dir.1);
    assert(ray_file(sq, dir, 1) == f && ray_rank(sq, dir, 1) == r);
    assert(ray_square(sq, dir, 1) == q);
    if on_ray(sq, dir, occ, s) {
        let n = choose|n: int| #[trigger]
            ray_gets_to(sq, dir, occ, n) && s == ray_square(sq, dir, n);
        assert(ray_on_board(sq, dir, 1));
        if n > 1 {
            assert(!bit(occ, ray_square(sq, dir, 1)));
            assert forall|k: int| 1 <= k <= n - 1 implies #[trigger] ray_on_board(
                q as u8,
                dir,
                k,
            ) by {
                lemma_ray_shifted(sq, dir, q as u8, k);
                assert(ray_on_board(sq, dir, k + 1));
            }
            assert forall|k: int| 1 <= k < n - 1 implies !bit(
                occ,
                #[trigger] ray_square(q as u8, dir, k),
            ) by {
                lemma_ray_shifted(sq, dir, q as u8, k);
                assert(!bit(occ, ray_square(sq, dir, k + 1)));
            }
            assert(ray_gets_to(q as u8, dir, occ, n - 1));
            lemma_ray_shifted(sq, dir, q as u8, n - 1);
        }
    }
    if 0 <= f < 8 && 0 <= r < 8 {
        assert(ray_on_board(sq, dir, 1));
        assert(ray_gets_to(sq, dir, occ, 1));
        if !bit(occ, q) && on_ray(q as u8, dir, occ, s) {
            let n = choose|n: int| #[trigger]
                ray_gets_to(q as u8, dir, occ, n) && s == ray_square(q as u8, dir, n);
            assert forall|k: int| 1 <= k <= n + 1 implies #[trigger] ray_on_board(
                sq,
                dir,
                k,
            ) by {
                if k > 1 {
                    lemma_ray_shifted(sq, dir, q as u8, k - 1);
                    assert(ray_on_board(q as u8, dir, k - 1));
                }
            }
            assert forall|k: int| 1 <= k < n + 1 implies !bit(
                occ,
                #[trigger] ray_square(sq, dir, k),
            ) by {
                if k > 1 {
                    lemma_ray_shifted(sq, dir, q as u8, k - 1);
                    assert(!bit(occ, ray_square(q as u8, dir, k - 1)));
                }
            }
            assert(ray_gets_to(sq, dir, occ, n + 1));
            lemma_ray_shifted(sq, dir, q as u8, n);
        }
    }
}

/// The squares that the ray from `sq` along `dir` reaches, up to the first
/// occupied one, which is the last that it reaches.
pub fn ray_bb(sq: u8, dir: (i32, i32), occ: u64) -> (bb: u64)
    requires
        dir.0 <= i32::MAX - 7,
        dir.1 <= i32::MAX - 31,
        dir != (0i32, 0i32) || sq >= 64 || bit(occ, sq as int),
    ensures
        forall|s: int| #[trigger] bit(bb, s) <==> on_ray(sq, dir, occ, s),
{
    let mut bb: u64 = 0;
    let mut f: i32 = sq_file(sq);
    let mut r: i32 = sq_rank(sq);
    let ghost mut n: int = 0;
    proof {
        lemma_next_step(sq, dir, 0);
        lemma_empty();
    }
    loop
        invariant
            dir.0 <= i32::MAX - 7,
            dir.1 <= i32::MAX - 31,
            dir != (0i32, 0i32) || sq >= 64 || bit(occ, sq as int),
            dir == (0i32, 0i32) ==> n == 0,
            0 <= n < 32,
            f == ray_file(sq, dir, n),
            r == ray_rank(sq, dir, n),
            0 <= f < 8,
            0 <= r < 32,
            forall|k: int| 1 <= k <= n ==> #[trigger] ray_on_board(sq, dir, k),
            forall|k: int| 1 <= k <= n ==> !bit(occ, #[trigger] ray_square(sq, dir, k)),
            forall|s: int| #[trigger]
                bit(bb, s) <==> exists|k: int|
                    1 <= k <= n && s == #[trigger] ray_square(sq, dir, k),
        decreases 32 - n,
    {
        proof {
            lemma_next_step(sq, dir, n);
        }
        f = f + dir.0;
        r = r + dir.1;
        match try_sq(f, r) {
            Some(s) => {
                let ghost before = bb;
                let one: u64 = single(s);
                bb = bb | one;
                proof {
                    n = n + 1;
                    assert(ray_on_board(sq, dir, n));
                    assert(s == ray_square(sq, dir, n));
                    assert(ray_gets_to(sq, dir, occ, n));
                    lemma_union(before, one);
                    assert forall|t: int| #[trigger] bit(bb, t) <==> exists|k: int|
                        1 <= k <= n && t == #[trigger] ray_square(sq, dir, k) by {
                        if bit(bb, t) && bit(before, t) {
                            let k = choose|k: int|
                                1 <= k <= n - 1 && t == #[trigger] ray_square(sq, dir, k);
                            assert(1 <= k <= n && t == ray_square(sq, dir, k));
                        }
                    }
                }
                if contains(occ, s) {
                    proof {
                        assert forall|t: int| #[trigger] bit(bb, t) <==> on_ray(sq, dir, occ, t) by {
                            if bit(bb, t) {
                                let k = choose|k: int|
                                    1 <= k <= n && t == #[trigger] ray_square(sq, dir, k);
                                assert(ray_gets_to(sq, dir, occ, k));
                            }
                            if on_ray(sq, dir, occ, t) {
                                let k = choose|k: int| #[trigger]
                                    ray_gets_to(sq, dir, occ, k) && t == ray_square(sq, dir, k);
                                if k > n {
                                    assert(!bit(occ, ray_square(sq, dir, n)));
                                }
                            }
                        }
                    }
                    return bb;
                }
                proof {
                    assert(dir != (0i32, 0i32));
                    lemma_ray_length(sq, dir, n);
                }
            },
            None => {
                proof {
                    assert(!ray_on_board(sq, dir, n + 1));
                    assert forall|t: int| #[trigger] bit(bb, t) <==> on_ray(sq, dir, occ, t) by {
                        if bit(bb, t) {
                            let k = choose|k: int|
                                1 <= k <= n && t == #[trigger] ray_square(sq, dir, k);
                            assert(ray_gets_to(sq, dir, occ, k));
                        }
                        if on_ray(sq, dir, occ, t) {
                            let k = choose|k: int| #[trigger]
                                ray_gets_to(sq, dir, occ, k) && t == ray_square(sq, dir, k);
                            if k > n {
                                assert(ray_on_board(sq, dir, n + 1));
                            }
                        }
                    }
                }
                return bb;
            },
        }
    }
}

} // verus!
