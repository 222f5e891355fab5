//! The view from the other side.
//!
//! The second number of a threat is the one that it gets when the board is
//! mirrored and the sides are exchanged.

use crate::attacks::{flip_all, lemma_attacks_mirrored, lemma_reaches_mirrored, toggle};
use crate::geometry::flip;
use crate::threats::{
    is_threat, lemma_pairs_distinct, lemma_threats_each_once, occupied, threat_pair, threat_pairs,
    threats, valid_position,
};
use vstd::prelude::*;

verus! {

/// The position mirrored, with the sides exchanged.
pub open spec fn mirrored(pos: Seq<Option<int>>) -> Seq<Option<int>> {
    Seq::new(
        64,
        |s: int|
            match pos[flip(s)] {
                Some(v) => Some(toggle(v)),
                None => None,
            },
    )
}

/// A pair with its parts exchanged.
pub open spec fn swap(pair: (int, int)) -> (int, int) {
    (pair.1, pair.0)
}

proof fn lemma_flip(s: int)
    requires
        0 <= s < 64,
    ensures
        0 <= flip(s) < 64,
        flip(flip(s)) == s,
{
}

/// The mirrored position has on a square what the position has on the square of the
/// same file and the opposite rank, of the same kind and the other side.
pub proof fn lemma_mirrored_square(pos: Seq<Option<int>>, s: int, t: int)
    requires
        pos.len() == 64,
        forall|q: int| 0 <= q < 64 ==> (#[trigger] pos[q] matches Some(v) ==> 0 <= v < 12),
        0 <= s < 64,
        0 <= t < 64,
        s % 8 == t % 8,
        s / 8 + t / 8 == 7,
    ensures
        mirrored(pos).len() == 64,
        mirrored(pos)[s] is Some <==> pos[t] is Some,
        pos[t] matches Some(v) ==> mirrored(pos)[s]->0 % 6 == v % 6 && 0 <= mirrored(pos)[s]->0
            < 12 && (mirrored(pos)[s]->0 < 6 <==> v >= 6),
{
    assert(flip(s) == t);
}

/// Mirroring twice gives the position back.
pub proof fn lemma_mirrored_twice(pos: Seq<Option<int>>)
    requires
        valid_position(pos),
    ensures
        valid_position(mirrored(pos)),
        mirrored(mirrored(pos)) == pos,
{
    assert forall|s: int| 0 <= s < 64 implies (#[trigger] mirrored(pos)[s] matches Some(v)
        ==> 0 <= v < 12) by {
        lemma_flip(s);
    }
    assert forall|s: int| 0 <= s < 64 implies #[trigger] mirrored(mirrored(pos))[s] == pos[s] by {
        lemma_flip(s);
        assert(mirrored(pos)[flip(s)] == match pos[s] {
            Some(v) => Some(toggle(v)),
            None => None,
        });
    }
    assert(mirrored(mirrored(pos)) =~= pos);
}

/// A threat is a threat on the mirrored board too, and there its two numbers change
/// places.
pub proof fn lemma_threat_mirrored(pos: Seq<Option<int>>, attacker: int, from: int, to: int)
    requires
        valid_position(pos),
        is_threat(pos, attacker, from, to),
    ensures
        is_threat(mirrored(pos), toggle(attacker), flip(from), flip(to)),
        threat_pair(mirrored(pos), flip(from), flip(to)) == swap(threat_pair(pos, from, to)),
{
    lemma_flip(from);
    lemma_flip(to);
    assert(pos[from] == Some(attacker));
    let victim = pos[to]->0;
    assert forall|s: int| #[trigger]
        occupied(mirrored(pos)).contains(s) <==> flip_all(occupied(pos)).contains(s) by {
        if 0 <= s < 64 {
            lemma_flip(s);
        }
    }
    assert(occupied(mirrored(pos)) =~= flip_all(occupied(pos)));
    lemma_attacks_mirrored(attacker, from, to, occupied(pos));
    lemma_reaches_mirrored(attacker, from, to);
    lemma_reaches_mirrored(victim, to, from);
}

proof fn lemma_swapped_pair_of_mirrored(pos: Seq<Option<int>>, pair: (int, int))
    requires
        valid_position(pos),
        threat_pairs(pos).contains(pair),
    ensures
        threat_pairs(mirrored(pos)).contains(swap(pair)),
{
    lemma_mirrored_twice(pos);
    lemma_threats_each_once(pos);
    lemma_threats_each_once(mirrored(pos));
    let i = choose|i: int| 0 <= i < threat_pairs(pos).len() && threat_pairs(pos)[i] == pair;
    let (from, to) = threats(pos)[i];
    assert(threats(pos).contains((from, to)));
    lemma_threat_mirrored(pos, pos[from]->0, from, to);
    let list = threats(mirrored(pos));
    assert(list.contains((flip(from), flip(to))));
    let j = choose|j: int| 0 <= j < list.len() && list[j] == (flip(from), flip(to));
    assert(threat_pairs(mirrored(pos))[j] == swap(pair));
}

/// The mirrored board has the same threats: their numbers are those of the board,
/// each pair with its parts exchanged.
pub proof fn lemma_pairs_mirrored(pos: Seq<Option<int>>)
    requires
        valid_position(pos),
    ensures
        threat_pairs(mirrored(pos)).to_multiset() == threat_pairs(pos).map_values(
            |p: (int, int)| swap(p),
        ).to_multiset(),
{
    let a = threat_pairs(mirrored(pos));
    let b = threat_pairs(pos);
    let c = b.map_values(|p: (int, int)| swap(p));
    lemma_mirrored_twice(pos);
    lemma_pairs_distinct(pos);
    lemma_pairs_distinct(mirrored(pos));
    assert forall|i: int, j: int| 0 <= i < c.len() && 0 <= j < c.len() && i != j implies c[i]
        != c[j] by {
        assert(b[i] != b[j]);
    }
    assert forall|p: (int, int)| a.contains(p) <==> c.contains(p) by {
        if a.contains(p) {
            lemma_swapped_pair_of_mirrored(mirrored(pos), p);
            let i = choose|i: int| 0 <= i < b.len() && b[i] == swap(p);
            assert(c[i] == p);
        }
        if c.contains(p) {
            let i = choose|i: int| 0 <= i < c.len() && c[i] == p;
            assert(b[i] == swap(p));
            assert(b.contains(swap(p)));
            lemma_swapped_pair_of_mirrored(pos, swap(p));
        }
    }
    a.to_multiset_ensures();
    c.to_multiset_ensures();
    a.lemma_multiset_has_no_duplicates();
    c.lemma_multiset_has_no_duplicates();
    assert forall|p: (int, int)| #[trigger] a.to_multiset().count(p) == c.to_multiset().count(
        p,
    ) by {
        assert(a.contains(p) <==> c.contains(p));
        assert(a.to_multiset().contains(p) <==> c.to_multiset().contains(p));
    }
    assert(a.to_multiset() =~= c.to_multiset());
}

/// A threat has the numbers `x` and `y` exactly if a threat of the mirrored board has
/// the numbers `y` and `x`.
pub proof fn lemma_numbers_change_places(pos: Seq<Option<int>>, x: int, y: int)
    requires
        pos.len() == 64,
        forall|s: int| 0 <= s < 64 ==> (#[trigger] pos[s] matches Some(v) ==> 0 <= v < 12),
    ensures
        threat_pairs(pos).contains((x, y)) <==> threat_pairs(mirrored(pos)).contains((y, x)),
{
    lemma_mirrored_twice(pos);
    if threat_pairs(pos).contains((x, y)) {
        lemma_swapped_pair_of_mirrored(pos, (x, y));
    }
    if threat_pairs(mirrored(pos)).contains((y, x)) {
        lemma_swapped_pair_of_mirrored(mirrored(pos), (y, x));
    }
}

} // verus!
