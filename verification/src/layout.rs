//! The numbering of the threats.
//!
//! A threat is an attacker variant on a square, a victim variant, and the square
//! of the victim, which must be one that the attacker reaches on an empty board.
//! The threats are numbered without gaps: by attacker variant, then by attacker
//! square, then by victim variant, then by victim square.

use crate::attacks::reaches;
use crate::totals::lemma_total;
use vstd::prelude::*;

verus! {

/// The number of squares below `to` that `variant` on `from` reaches on an empty
/// board.
pub open spec fn reach_below(variant: int, from: int, to: int) -> nat
    decreases to,
{
    if to <= 0 {
        0
    } else {
        reach_below(variant, from, to - 1) + if reaches(variant, from, to - 1) {
            1nat
        } else {
            0
        }
    }
}

/// The number of squares that `variant` on `from` reaches on an empty board.
pub open spec fn reach_count(variant: int, from: int) -> nat {
    reach_below(variant, from, 64)
}

/// The number of pairs of an attacker square below `from` and a square that
/// `variant` reaches from it on an empty board.
pub open spec fn reach_before(variant: int, from: int) -> nat
    decreases from,
{
    if from <= 0 {
        0
    } else {
        reach_before(variant, from - 1) + reach_count(variant, from - 1)
    }
}

/// The number of pairs of an attacker square and a square that `variant` reaches
/// from it on an empty board.
pub open spec fn reach_total(variant: int) -> nat {
    reach_before(variant, 64)
}

/// The number of threats whose attacker is a variant below `variant`.
pub open spec fn base(variant: int) -> nat
    decreases variant,
{
    if variant <= 0 {
        0
    } else {
        base(variant - 1) + reach_total(variant - 1) * 12
    }
}

/// The number of threats.
pub open spec fn block_size() -> nat {
    base(12)
}

/// Whether a victim variant on `to` can be a threat's victim, when the attacker is
/// `attacker` on `from`.
pub open spec fn is_numbered(attacker: int, from: int, victim: int, to: int) -> bool {
    0 <= attacker < 12 && 0 <= from < 64 && 0 <= victim < 12 && reaches(attacker, from, to)
}

/// The number of a threat.
pub open spec fn threat_index(attacker: int, from: int, victim: int, to: int) -> int {
    base(attacker) + 12 * reach_before(attacker, from) + victim * reach_count(attacker, from)
        + reach_below(attacker, from, to)
}

/// The count of reached squares grows with the bound, by at most one a square.
pub proof fn lemma_reach_below_grows(variant: int, from: int, a: int, b: int)
    requires
        0 <= a <= b,
    ensures
        reach_below(variant, from, a) <= reach_below(variant, from, b),
        reach_below(variant, from, b) <= reach_below(variant, from, a) + (b - a),
        a < b && reaches(variant, from, a) ==> reach_below(variant, from, a) < reach_below(
            variant,
            from,
            b,
        ),
    decreases b,
{
    if a < b {
        lemma_reach_below_grows(variant, from, a, b - 1);
    }
}

/// The count over attacker squares grows with the bound.
pub proof fn lemma_reach_before_grows(variant: int, a: int, b: int)
    requires
        0 <= a <= b,
    ensures
        reach_before(variant, a) <= reach_before(variant, b),
        a < b ==> reach_before(variant, a) + reach_count(variant, a) <= reach_before(variant, b),
    decreases b,
{
    if a < b {
        lemma_reach_before_grows(variant, a, b - 1);
    }
}

/// The count over attacker variants grows with the bound.
pub proof fn lemma_base_grows(a: int, b: int)
    requires
        0 <= a <= b,
    ensures
        base(a) <= base(b),
        a < b ==> base(a) + reach_total(a) * 12 <= base(b),
    decreases b,
{
    if a < b {
        lemma_base_grows(a, b - 1);
    }
}

/// There are 90384 threats.
pub proof fn lemma_block_size()
    ensures
        block_size() == 90384,
{
    reveal_with_fuel(base, 13);
    lemma_total(0);
    lemma_total(1);
    lemma_total(2);
    lemma_total(3);
    lemma_total(4);
    lemma_total(5);
    lemma_total(6);
    lemma_total(7);
    lemma_total(8);
    lemma_total(9);
    lemma_total(10);
    lemma_total(11);
}

/// Where a threat stands among those of its attacker variant and attacker square.
proof fn lemma_within_square(attacker: int, from: int, victim: int, to: int)
    requires
        is_numbered(attacker, from, victim, to),
    ensures
        ({
            let count = reach_count(attacker, from);
            let place = victim * count + reach_below(attacker, from, to);
            &&& reach_below(attacker, from, to) < count
            &&& 0 <= victim * count <= place < (victim + 1) * count
            &&& place < 12 * count
            &&& reach_before(attacker, from + 1) == reach_before(attacker, from) + count
            &&& reach_before(attacker, from + 1) <= reach_total(attacker)
        }),
{
    lemma_reach_below_grows(attacker, from, to, 64);
    lemma_reach_before_grows(attacker, from + 1, 64);
    let count = reach_count(attacker, from) as int;
    let below = reach_below(attacker, from, to) as int;
    assert(0 <= victim * count <= victim * count + below < (victim + 1) * count && victim * count
        + below < 12 * count) by (nonlinear_arith)
        requires
            0 <= victim < 12,
            0 <= below < count,
    ;
}

/// Every threat's number is below the number of threats.
pub proof fn lemma_threat_index_in_range(attacker: int, from: int, victim: int, to: int)
    requires
        is_numbered(attacker, from, victim, to),
    ensures
        0 <= threat_index(attacker, from, victim, to) < block_size(),
        base(attacker) <= threat_index(attacker, from, victim, to) < base(attacker + 1),
{
    lemma_within_square(attacker, from, victim, to);
    lemma_base_grows(attacker + 1, 12);
}

/// Among the threats of one attacker variant, those of a lower attacker square come
/// first; among those of one attacker square, those of a lower victim variant; and
/// among those of one victim variant, those of a lower victim square.
pub proof fn lemma_nesting(
    attacker: int,
    f1: int,
    v1: int,
    t1: int,
    f2: int,
    v2: int,
    t2: int,
)
    requires
        is_numbered(attacker, f1, v1, t1),
        is_numbered(attacker, f2, v2, t2),
    ensures
        f1 < f2 ==> threat_index(attacker, f1, v1, t1) < threat_index(attacker, f2, v2, t2),
        f1 == f2 && v1 < v2 ==> threat_index(attacker, f1, v1, t1) < threat_index(
            attacker,
            f2,
            v2,
            t2,
        ),
        f1 == f2 && v1 == v2 && t1 < t2 ==> threat_index(attacker, f1, v1, t1) < threat_index(
            attacker,
            f2,
            v2,
            t2,
        ),
{
    lemma_within_square(attacker, f1, v1, t1);
    lemma_within_square(attacker, f2, v2, t2);
    if f1 < f2 {
        lemma_reach_before_grows(attacker, f1 + 1, f2);
    } else if f1 == f2 && v1 < v2 {
        let count = reach_count(attacker, f1) as int;
        assert((v1 + 1) * count <= v2 * count) by (nonlinear_arith)
            requires
                v1 < v2,
                0 <= count,
        ;
    } else if f1 == f2 && v1 == v2 && t1 < t2 {
        lemma_reach_below_grows(attacker, f1, t1, t2);
    }
}

/// The threats are numbered by attacker variant, among those of one variant by
/// attacker square, among those of one square by victim variant, and last by victim
/// square. The numbers are below 90384.
pub proof fn lemma_numbered_in_order(
    a1: int,
    f1: int,
    v1: int,
    t1: int,
    a2: int,
    f2: int,
    v2: int,
    t2: int,
)
    requires
        0 <= a1 < 12 && 0 <= f1 < 64 && 0 <= v1 < 12 && reaches(a1, f1, t1),
        0 <= a2 < 12 && 0 <= f2 < 64 && 0 <= v2 < 12 && reaches(a2, f2, t2),
    ensures
        threat_index(a1, f1, v1, t1) < threat_index(a2, f2, v2, t2) <==> {
            ||| a1 < a2
            ||| a1 == a2 && f1 < f2
            ||| a1 == a2 && f1 == f2 && v1 < v2
            ||| a1 == a2 && f1 == f2 && v1 == v2 && t1 < t2
        },
        0 <= threat_index(a1, f1, v1, t1) < 90384,
{
    lemma_block_size();
    lemma_threat_index_in_range(a1, f1, v1, t1);
    lemma_threat_index_in_range(a2, f2, v2, t2);
    if a1 < a2 {
        lemma_base_grows(a1 + 1, a2);
    } else if a2 < a1 {
        lemma_base_grows(a2 + 1, a1);
    } else {
        lemma_nesting(a1, f1, v1, t1, f2, v2, t2);
        lemma_nesting(a1, f2, v2, t2, f1, v1, t1);
    }
}

/// The numbers of the threats on one target go up in equal steps with the victim
/// variant. The step is the number of squares that the attacker reaches.
pub proof fn lemma_victims_in_step(attacker: int, from: int, victim: int, to: int)
    ensures
        threat_index(attacker, from, victim + 1, to) - threat_index(attacker, from, victim, to)
            == reach_below(attacker, from, 64),
{
    let count = reach_count(attacker, from) as int;
    assert((victim + 1) * count == victim * count + count) by (nonlinear_arith);
}

/// The place of a target among the squares reached from a square: none comes before
/// the first square, and each square reached, and no other, is one more before the
/// next. The number of a threat is above the one for the first square by its place.
pub proof fn lemma_places(attacker: int, from: int, victim: int, to: int)
    requires
        0 <= to,
    ensures
        reach_below(attacker, from, 0) == 0,
        reaches(attacker, from, to) ==> reach_below(attacker, from, to + 1) == reach_below(
            attacker,
            from,
            to,
        ) + 1,
        !reaches(attacker, from, to) ==> reach_below(attacker, from, to + 1) == reach_below(
            attacker,
            from,
            to,
        ),
        threat_index(attacker, from, victim, to) - threat_index(attacker, from, victim, 0)
            == reach_below(attacker, from, to),
{
}

/// Different threats have different numbers.
pub proof fn lemma_threat_index_injective(
    a1: int,
    f1: int,
    v1: int,
    t1: int,
    a2: int,
    f2: int,
    v2: int,
    t2: int,
)
    requires
        is_numbered(a1, f1, v1, t1),
        is_numbered(a2, f2, v2, t2),
        threat_index(a1, f1, v1, t1) == threat_index(a2, f2, v2, t2),
    ensures
        a1 == a2,
        f1 == f2,
        v1 == v2,
        t1 == t2,
{
    lemma_threat_index_in_range(a1, f1, v1, t1);
    lemma_threat_index_in_range(a2, f2, v2, t2);
    if a1 < a2 {
        lemma_base_grows(a1 + 1, a2);
    } else if a2 < a1 {
        lemma_base_grows(a2 + 1, a1);
    }
    lemma_nesting(a1, f1, v1, t1, f2, v2, t2);
    lemma_nesting(a1, f2, v2, t2, f1, v1, t1);
}

/// The target square whose reachable predecessors number `n`.
proof fn lemma_find_target(variant: int, from: int, bound: int, n: int) -> (to: int)
    requires
        0 <= n < reach_below(variant, from, bound),
        bound <= 64,
    ensures
        0 <= to < bound,
        reaches(variant, from, to),
        reach_below(variant, from, to) == n,
    decreases bound,
{
    if n < reach_below(variant, from, bound - 1) {
        lemma_find_target(variant, from, bound - 1, n)
    } else {
        bound - 1
    }
}

/// The attacker square in whose span `n` lies.
proof fn lemma_find_from(variant: int, bound: int, n: int) -> (from: int)
    requires
        0 <= n < reach_before(variant, bound),
        bound <= 64,
    ensures
        0 <= from < bound,
        reach_before(variant, from) <= n < reach_before(variant, from) + reach_count(variant, from),
    decreases bound,
{
    if n < reach_before(variant, bound - 1) {
        lemma_find_from(variant, bound - 1, n)
    } else {
        bound - 1
    }
}

/// The attacker variant in whose span `n` lies.
proof fn lemma_find_attacker(bound: int, n: int) -> (attacker: int)
    requires
        0 <= n < base(bound),
        bound <= 12,
    ensures
        0 <= attacker < bound,
        base(attacker) <= n < base(attacker) + reach_total(attacker) * 12,
    decreases bound,
{
    if n < base(bound - 1) {
        lemma_find_attacker(bound - 1, n)
    } else {
        bound - 1
    }
}

/// No number below the number of threats is left out.
pub proof fn lemma_threat_index_surjective(n: int) -> (threat: (int, int, int, int))
    requires
        0 <= n < block_size(),
    ensures
        0 <= threat.0 < 12,
        0 <= threat.1 < 64,
        0 <= threat.2 < 12,
        reaches(threat.0, threat.1, threat.3),
        is_numbered(threat.0, threat.1, threat.2, threat.3),
        threat_index(threat.0, threat.1, threat.2, threat.3) == n,
{
    let attacker = lemma_find_attacker(12, n);
    let rest = n - base(attacker);
    let from = lemma_find_from(attacker, 64, rest / 12);
    let count = reach_count(attacker, from) as int;
    let place = rest - 12 * reach_before(attacker, from);
    let victim = place / count;
    let below = place % count;
    assert(0 <= victim < 12 && 0 <= below < count && victim * count + below == place)
        by (nonlinear_arith)
        requires
            0 <= place < 12 * count,
            victim == place / count,
            below == place % count,
    ;
    let to = lemma_find_target(attacker, from, 64, below);
    (attacker, from, victim, to)
}

} // verus!
