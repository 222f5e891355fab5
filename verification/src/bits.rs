//! Bitboards: a `u64` read as a set of squares, square `s` being bit `s`.

use vstd::prelude::*;
use vstd::std_specs::bits::{axiom_u64_trailing_zeros, u64_trailing_zeros};

verus! {

/// Whether square `s` belongs to the bitboard `bb`.
pub open spec fn bit(bb: u64, s: int) -> bool {
    0 <= s < 64 && (bb >> (s as u64)) & 1 == 1
}

/// The squares of the bitboard `bb`.
pub open spec fn squares(bb: u64) -> Set<int> {
    Set::new(|s: int| bit(bb, s))
}

/// The number of squares of `bb` below `s`.
pub open spec fn count_below(bb: u64, s: int) -> nat
    decreases s,
{
    if s <= 0 {
        0
    } else {
        count_below(bb, s - 1) + if bit(bb, s - 1) {
            1nat
        } else {
            0
        }
    }
}

/// The number of squares of `bb`.
pub open spec fn count(bb: u64) -> nat {
    count_below(bb, 64)
}

/// A square of `bb` is passed by the count above it.
pub proof fn lemma_count_below_grows(bb: u64, a: int, b: int)
    requires
        0 <= a <= b,
    ensures
        count_below(bb, a) <= count_below(bb, b),
        a < b && bit(bb, a) ==> count_below(bb, a) < count_below(bb, b),
    decreases b,
{
    if a < b {
        lemma_count_below_grows(bb, a, b - 1);
    }
}

/// A stretch without a square of `bb` does not count.
pub proof fn lemma_count_below_stretch(bb: u64, a: int, b: int)
    requires
        0 <= a <= b,
        forall|s: int| a <= s < b ==> !#[trigger] bit(bb, s),
    ensures
        count_below(bb, b) == count_below(bb, a),
    decreases b,
{
    if a < b {
        assert(!bit(bb, b - 1));
        lemma_count_below_stretch(bb, a, b - 1);
    }
}

proof fn lemma_u64_union(a: u64, b: u64, s: u64)
    by (bit_vector)
    requires
        s < 64,
    ensures
        ((a | b) >> s) & 1 == 1 <==> ((a >> s) & 1 == 1 || (b >> s) & 1 == 1),
        ((a & b) >> s) & 1 == 1 <==> ((a >> s) & 1 == 1 && (b >> s) & 1 == 1),
{
}

proof fn lemma_u64_single(t: u64, s: u64)
    by (bit_vector)
    requires
        s < 64,
        t < 64,
    ensures
        ((1u64 << t) >> s) & 1 == 1 <==> s == t,
{
}

proof fn lemma_u64_test(a: u64, t: u64)
    by (bit_vector)
    requires
        t < 64,
    ensures
        a & (1u64 << t) != 0 <==> (a >> t) & 1 == 1,
{
}

proof fn lemma_u64_drop_lowest(a: u64, t: u64, s: u64)
    by (bit_vector)
    requires
        a != 0,
        t < 64,
        s < 64,
        (a >> t) & 1 == 1,
        a << ((64 - t) as u64) == 0,
    ensures
        ((a & ((a - 1) as u64)) >> s) & 1 == 1 <==> ((a >> s) & 1 == 1 && s != t),
        a & ((a - 1) as u64) < a,
{
}

/// The squares of a bitboard are the places of its ones, and there are 64 places.
pub proof fn lemma_bit(bb: u64, s: int)
    ensures
        bit(bb, s) <==> 0 <= s < 64 && (bb >> (s as u64)) & 1 == 1,
        squares(bb).contains(s) <==> 0 <= s < 64 && (bb >> (s as u64)) & 1 == 1,
{
}

/// Counting starts at nothing, and goes up by one past each square of `bb` and past
/// no other.
pub proof fn lemma_count_steps(bb: u64, s: u64)
    requires
        s < 64,
    ensures
        count_below(bb, 0) == 0,
        (bb >> s) & 1 == 1 ==> count_below(bb, s + 1) == count_below(bb, s as int) + 1,
        (bb >> s) & 1 != 1 ==> count_below(bb, s + 1) == count_below(bb, s as int),
        count(bb) == count_below(bb, 64),
{
}

/// The empty bitboard has no square.
pub proof fn lemma_empty()
    ensures
        forall|s: int| !#[trigger] bit(0, s),
{
    assert forall|s: int| !#[trigger] bit(0, s) by {
        let t = s as u64;
        assert((0u64 >> t) & 1 == 0) by (bit_vector);
    }
}

/// The squares of a union are those of both bitboards.
pub proof fn lemma_union(a: u64, b: u64)
    ensures
        forall|s: int| #[trigger] bit(a | b, s) <==> bit(a, s) || bit(b, s),
{
    assert forall|s: int| #[trigger] bit(a | b, s) <==> bit(a, s) || bit(b, s) by {
        if 0 <= s < 64 {
            lemma_u64_union(a, b, s as u64);
        }
    }
}

/// The squares of an intersection are those that both bitboards have.
pub proof fn lemma_intersection(a: u64, b: u64)
    ensures
        forall|s: int| #[trigger] bit(a & b, s) <==> bit(a, s) && bit(b, s),
{
    assert forall|s: int| #[trigger] bit(a & b, s) <==> bit(a, s) && bit(b, s) by {
        if 0 <= s < 64 {
            lemma_u64_union(a, b, s as u64);
        }
    }
}

/// Two bitboards with the same squares are the same number.
pub proof fn lemma_same_squares(a: u64, b: u64)
    requires
        forall|s: int| 0 <= s < 64 ==> (#[trigger] bit(a, s) <==> bit(b, s)),
    ensures
        a == b,
{
    let d = a ^ b;
    if d != 0 {
        axiom_u64_trailing_zeros(d);
        let t = u64_trailing_zeros(d) as u64;
        assert(((a ^ b) >> t) & 1 == 1 ==> (((a >> t) & 1 == 1) != ((b >> t) & 1 == 1)))
            by (bit_vector);
        assert(bit(a, t as int) <==> bit(b, t as int));
    }
    assert(a ^ b == 0 ==> a == b) by (bit_vector);
}

/// The bitboard that holds `s` alone.
pub fn single(s: u8) -> (bb: u64)
    requires
        s < 64,
    ensures
        forall|t: int| #[trigger] bit(bb, t) <==> t == s,
        bb == 1u64 << (s as u64),
{
    let bb: u64 = 1u64 << (s as u64);
    proof {
        assert forall|t: int| #[trigger] bit(bb, t) <==> t == s by {
            if 0 <= t < 64 {
                lemma_u64_single(s as u64, t as u64);
            }
        }
    }
    bb
}

/// Whether `bb` holds the square `s`.
pub fn contains(bb: u64, s: u8) -> (b: bool)
    requires
        s < 64,
    ensures
        b == bit(bb, s as int),
        b == ((bb >> (s as u64)) & 1 == 1),
{
    proof {
        lemma_u64_test(bb, s as u64);
    }
    bb & (1u64 << (s as u64)) != 0
}

/// The lowest square of `bb`, and `bb` without it.
pub fn pop_lowest(bb: u64) -> (r: (u8, u64))
    requires
        bb != 0,
    ensures
        r.0 < 64,
        bit(bb, r.0 as int),
        forall|s: int| s < r.0 ==> !#[trigger] bit(bb, s),
        forall|s: int| #[trigger] bit(r.1, s) <==> bit(bb, s) && s != r.0,
        r.1 < bb,
        r.1 == bb & ((bb - 1) as u64),
        (bb >> (r.0 as u64)) & 1 == 1,
        forall|t: u64| t < r.0 ==> #[trigger] (bb >> t) & 1 == 0,
{
    let tz: u32 = bb.trailing_zeros();
    proof {
        axiom_u64_trailing_zeros(bb);
        assert forall|s: int| s < tz implies !#[trigger] bit(bb, s) by {
            if 0 <= s {
                assert((bb >> (s as u64)) & 1u64 == 0u64);
            }
        }
        let rest = bb & ((bb - 1) as u64);
        lemma_u64_drop_lowest(bb, tz as u64, 0);
        assert forall|s: int| #[trigger] bit(rest, s) <==> bit(bb, s) && s != tz by {
            if 0 <= s < 64 {
                lemma_u64_drop_lowest(bb, tz as u64, s as u64);
            }
        }
    }
    (tz as u8, bb & (bb - 1))
}

/// A bitboard that is not zero has a square.
pub proof fn lemma_nonzero(bb: u64)
    ensures
        bb == 0 <==> forall|s: int| !#[trigger] bit(bb, s),
{
    lemma_empty();
    axiom_u64_trailing_zeros(bb);
    if bb != 0 {
        assert(bit(bb, u64_trailing_zeros(bb) as int));
    }
}

} // verus!
