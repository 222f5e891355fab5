//! The tables that turn a threat into its number.

use crate::attacks::{lemma_empty_board, raw_attacks_bb, reaches};
use crate::bits::{bit, lemma_empty, lemma_nonzero, pop_lowest, squares};
use crate::layout::{
    base, block_size, lemma_base_grows, lemma_block_size, reach_before, reach_below, reach_count,
    reach_total, threat_index,
};
use vstd::prelude::*;

verus! {

/// Lookup tables over attacker variants, attacker squares and target squares.
///
/// `ordinal_lookup[variant][attacker_sq][target_sq]` is the place of the target
/// among the squares that the variant reaches from the attacker square on an
/// empty board, or -1 if it does not reach it.
pub struct ThreatTables {
    offset: Box<[[usize; 64]; 12]>,
    total: [usize; 12],
    base: [usize; 12],
    ordinal_lookup: Box<[[[i8; 64]; 64]; 12]>,
    /// The number of threats.
    pub block_size: usize,
}

/// What the lookup holds for a target.
spec fn ordinal_entry(variant: int, from: int, to: int) -> int {
    if reaches(variant, from, to) {
        reach_below(variant, from, to) as int
    } else {
        -1
    }
}

/// No square of a stretch that the piece does not reach counts.
proof fn lemma_unreached_stretch(variant: int, from: int, a: int, b: int)
    requires
        0 <= a <= b,
        forall|s: int| a <= s < b ==> !#[trigger] reaches(variant, from, s),
    ensures
        reach_below(variant, from, b) == reach_below(variant, from, a),
    decreases b,
{
    if a < b {
        assert(!reaches(variant, from, b - 1));
        lemma_unreached_stretch(variant, from, a, b - 1);
    }
}

impl ThreatTables {
    /// Builds the tables.
    pub fn build() -> (tables: Self)
        ensures
            tables.well_formed(),
            tables.size() == 90384,
    {
        let mut offset: Box<[[usize; 64]; 12]> = Box::new([[0usize; 64]; 12]);
        let mut total: [usize; 12] = [0usize; 12];
        let mut ordinal_lookup: Box<[[[i8; 64]; 64]; 12]> = Box::new([[[-1i8; 64]; 64]; 12]);

        let mut variant: usize = 0;
        while variant < 12
            invariant
                variant <= 12,
                forall|v: int, s: int|
                    0 <= v < variant && 0 <= s < 64 ==> #[trigger] offset[v][s] == reach_before(
                        v,
                        s,
                    ),
                forall|v: int| 0 <= v < variant ==> #[trigger] total[v] == reach_total(v),
                forall|v: int, s: int, t: int|
                    0 <= v < 12 && 0 <= s < 64 && 0 <= t < 64
                        ==> #[trigger] ordinal_lookup[v][s][t] == if v < variant {
                        ordinal_entry(v, s, t)
                    } else {
                        -1
                    },
            decreases 12 - variant,
        {
            let mut cum: usize = 0;
            let mut sq: u8 = 0;
            while sq < 64
                invariant
                    variant < 12,
                    sq <= 64,
                    cum == reach_before(variant as int, sq as int),
                    cum <= sq * 64,
                    forall|v: int, s: int|
                        0 <= v < variant && 0 <= s < 64 || v == variant && 0 <= s < sq
                            ==> #[trigger] offset[v][s] == reach_before(v, s),
                    forall|v: int, s: int, t: int|
                        0 <= v < 12 && 0 <= s < 64 && 0 <= t < 64
                            ==> #[trigger] ordinal_lookup[v][s][t] == if v < variant || v
                            == variant && s < sq {
                            ordinal_entry(v, s, t)
                        } else {
                            -1
                        },
                decreases 64 - sq,
            {
                let ghost from: int = sq as int;
                let mut bb: u64 = raw_attacks_bb(variant, sq, 0);
                offset[variant][sq as usize] = cum;
                let mut ord: i8 = 0;
                let ghost mut next: int = 0;
                proof {
                    lemma_empty();
                    assert(squares(0) =~= Set::<int>::empty());
                    assert forall|s: int| #[trigger] bit(bb, s) <==> reaches(
                        variant as int,
                        from,
                        s,
                    ) by {
                        lemma_empty_board(variant as int, from, s);
                    }
                }
                while bb != 0
                    invariant
                        variant < 12,
                        sq < 64,
                        from == sq,
                        0 <= next <= 64,
                        forall|s: int| #[trigger]
                            bit(bb, s) <==> next <= s && reaches(variant as int, from, s),
                        0 <= ord <= next,
                        ord == reach_below(variant as int, from, next),
                        forall|v: int, s: int, t: int|
                            0 <= v < 12 && 0 <= s < 64 && 0 <= t < 64
                                ==> #[trigger] ordinal_lookup[v][s][t] == if v < variant || v
                                == variant && s < sq || v == variant && s == sq && t < next {
                                ordinal_entry(v, s, t)
                            } else {
                                -1
                            },
                    decreases bb,
                {
                    let (s, rest) = pop_lowest(bb);
                    proof {
                        assert forall|q: int| next <= q < s implies !#[trigger] reaches(
                            variant as int,
                            from,
                            q,
                        ) by {
                            assert(!bit(bb, q));
                        }
                        lemma_unreached_stretch(variant as int, from, next, s as int);
                    }
                    ordinal_lookup[variant][sq as usize][s as usize] = ord;
                    ord = ord + 1;
                    bb = rest;
                    proof {
                        next = s + 1;
                    }
                }
                proof {
                    lemma_nonzero(bb);
                    assert forall|q: int| next <= q < 64 implies !#[trigger] reaches(
                        variant as int,
                        from,
                        q,
                    ) by {
                        assert(!bit(bb, q));
                    }
                    lemma_unreached_stretch(variant as int, from, next, 64);
                }
                cum = cum + ord as usize;
                sq = sq + 1;
            }
            total[variant] = cum;
            variant = variant + 1;
        }

        let mut base: [usize; 12] = [0usize; 12];
        let mut running: usize = 0;
        let mut v: usize = 0;
        proof {
            lemma_block_size();
        }
        while v < 12
            invariant
                v <= 12,
                running == crate::layout::base(v as int),
                block_size() == 90384,
                forall|w: int| 0 <= w < v ==> #[trigger] base[w] == crate::layout::base(w),
                forall|w: int| 0 <= w < 12 ==> #[trigger] total[w] == reach_total(w),
            decreases 12 - v,
        {
            base[v] = running;
            proof {
                lemma_base_grows(v as int, 12);
            }
            running = running + total[v] * 12;
            v = v + 1;
        }

        ThreatTables { offset, total, base, ordinal_lookup, block_size: running }
    }

    /// Whether the tables hold what they are meant to.
    pub closed spec fn well_formed(&self) -> bool {
        &&& forall|v: int, s: int|
            0 <= v < 12 && 0 <= s < 64 ==> #[trigger] self.offset[v][s] == reach_before(v, s)
        &&& forall|v: int| 0 <= v < 12 ==> #[trigger] self.total[v] == reach_total(v)
        &&& forall|v: int| 0 <= v < 12 ==> #[trigger] self.base[v] == base(v)
        &&& forall|v: int, s: int, t: int|
            0 <= v < 12 && 0 <= s < 64 && 0 <= t < 64 ==> #[trigger] self.ordinal_lookup[v][s][t]
                == ordinal_entry(v, s, t)
        &&& self.block_size == block_size()
    }

    /// The value of the field `block_size`.
    pub closed spec fn size(&self) -> nat {
        self.block_size as nat
    }

    /// The field `block_size` of well-formed tables is the number of threats.
    pub proof fn lemma_size(&self)
        requires
            self.well_formed(),
        ensures
            self.size() == block_size(),
            self.size() == 90384,
    {
        lemma_block_size();
    }

    /// The number of threats.
    pub fn threat_count(&self) -> (n: usize)
        ensures
            n == self.size(),
            self.well_formed() ==> n == 90384,
    {
        proof {
            if self.well_formed() {
                self.lemma_size();
            }
        }
        self.block_size
    }

    /// The place of `target` among the squares that `variant` on `sq` reaches on an
    /// empty board.
    pub fn ordinal(&self, variant: usize, sq: u8, target: u8) -> (ord: usize)
        requires
            self.well_formed(),
            variant < 12,
            sq < 64,
            target < 64,
            reaches(variant as int, sq as int, target as int),
        ensures
            ord == reach_below(variant as int, sq as int, target as int),
    {
        let ord: i8 = self.ordinal_lookup[variant][sq as usize][target as usize];
        ord as usize
    }

    /// The number of the threat of `attacker_variant` on `attacker_sq` against
    /// `victim_variant` on `victim_sq`.
    pub fn local_index(
        &self,
        attacker_variant: usize,
        attacker_sq: u8,
        victim_variant: usize,
        victim_sq: u8,
    ) -> (index: usize)
        requires
            self.well_formed(),
            attacker_variant < 12,
            attacker_sq < 64,
            victim_sq < 64,
            reaches(attacker_variant as int, attacker_sq as int, victim_sq as int),
            threat_index(
                attacker_variant as int,
                attacker_sq as int,
                victim_variant as int,
                victim_sq as int,
            ) <= usize::MAX,
        ensures
            index == threat_index(
                attacker_variant as int,
                attacker_sq as int,
                victim_variant as int,
                victim_sq as int,
            ),
    {
        let ord: usize = self.ordinal(attacker_variant, attacker_sq, victim_sq);
        let start: usize = self.offset[attacker_variant][attacker_sq as usize];
        let end: usize = if attacker_sq < 63 {
            self.offset[attacker_variant][attacker_sq as usize + 1]
        } else {
            self.total[attacker_variant]
        };
        proof {
            let count = reach_count(attacker_variant as int, attacker_sq as int) as int;
            assert(end - start == count);
            assert(0 <= victim_variant * count) by (nonlinear_arith)
                requires
                    0 <= count,
            ;
        }
        self.base[attacker_variant] + 12 * start + victim_variant * (end - start) + ord
    }
}

} // verus!
