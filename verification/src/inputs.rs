//! The inputs of the network: a bucket of piece-square inputs for each king
//! square, then the threats.

use crate::board::Board;
use crate::layout::{block_size, lemma_block_size};
use crate::numbers::{decimal, decimal_string};
use crate::tables::ThreatTables;
use crate::threats::{
    as_ints, emit_threat_pairs, lemma_pairs_distinct, lemma_valid_position, threat_pairs,
};
use std::sync::Arc;
use vstd::math::min;
use vstd::prelude::*;
use vstd::string::*;

verus! {

/// Piece-square inputs in a bucket.
pub const PST_INPUTS: usize = 768;

/// Buckets of the network.
pub const INPUT_BUCKETS: usize = 10;

/// Threats.
pub const THREAT_BLOCK_SIZE: usize = 90_384;

/// Inputs of the network.
pub const COMBINED_INPUTS: usize = 768 * INPUT_BUCKETS + THREAT_BLOCK_SIZE;

/// The inputs of the network are ten buckets of 64 squares for each of twelve
/// variants, and the threats.
pub proof fn lemma_combined_inputs()
    ensures
        COMBINED_INPUTS == 10 * 64 * 12 + 90384,
        INPUT_BUCKETS * PST_INPUTS + THREAT_BLOCK_SIZE == COMBINED_INPUTS,
        PST_INPUTS == 64 * 12,
        THREAT_BLOCK_SIZE == block_size(),
{
    lemma_block_size();
}

/// The bucket of a king square: on the first two ranks one for each file and its
/// mirror image, one for the third rank, and one for the rest.
pub open spec fn bucket_of(s: int) -> int {
    let f = s % 8;
    let r = s / 8;
    if r == 0 {
        min(f, 7 - f)
    } else if r == 1 {
        4 + min(f, 7 - f)
    } else if r == 2 {
        8
    } else {
        9
    }
}

/// The bucket of each king square.
pub fn input_buckets_layout() -> (layout: [usize; 64])
    ensures
        forall|s: int| 0 <= s < 64 ==> #[trigger] layout@[s] == bucket_of(s),
        forall|s: int| 0 <= s < 64 ==> #[trigger] layout@[s] < INPUT_BUCKETS,
        forall|f: int| 0 <= f < 4 ==> #[trigger] layout@[f] == f,
        forall|s: int| 8 <= s < 12 ==> #[trigger] layout@[s] == s - 4,
        forall|s: int| 16 <= s < 24 ==> #[trigger] layout@[s] == 8,
        forall|s: int| 24 <= s < 64 ==> #[trigger] layout@[s] == 9,
        forall|s: int, t: int|
            0 <= s < 64 && 0 <= t < 64 && s / 8 == t / 8 && s % 8 + t % 8 == 7
                ==> #[trigger] layout@[s] == #[trigger] layout@[t],
{
    [
        0, 1, 2, 3, 3, 2, 1, 0,
        4, 5, 6, 7, 7, 6, 5, 4,
        8, 8, 8, 8, 8, 8, 8, 8,
        9, 9, 9, 9, 9, 9, 9, 9,
        9, 9, 9, 9, 9, 9, 9, 9,
        9, 9, 9, 9, 9, 9, 9, 9,
        9, 9, 9, 9, 9, 9, 9, 9,
        9, 9, 9, 9, 9, 9, 9, 9,
    ]
}

/// Every pair of `pairs` with `first` and `second` added to its parts.
pub open spec fn shifted(pairs: Seq<(int, int)>, first: int, second: int) -> Seq<(int, int)> {
    pairs.map_values(|p: (int, int)| (first + p.0, second + p.1))
}

/// The pairs keep their number and their order, and each part grows by its shift.
pub proof fn lemma_shifted(pairs: Seq<(int, int)>, first: int, second: int, i: int)
    requires
        0 <= i < pairs.len(),
    ensures
        shifted(pairs, first, second).len() == pairs.len(),
        shifted(pairs, first, second)[i].0 - pairs[i].0 == first,
        shifted(pairs, first, second)[i].1 - pairs[i].1 == second,
{
}

/// King-bucketed piece-square inputs, followed by the threats.
pub struct PstPlusThreatInputs {
    pst_buckets: [usize; 64],
    num_pst_buckets: usize,
    tables: Arc<ThreatTables>,
}

impl Clone for PstPlusThreatInputs {
    fn clone(&self) -> (copy: Self)
        ensures
            copy == *self,
    {
        PstPlusThreatInputs {
            pst_buckets: self.pst_buckets,
            num_pst_buckets: self.num_pst_buckets,
            tables: self.tables.clone(),
        }
    }
}

impl PstPlusThreatInputs {
    /// The bucket of a king square.
    pub closed spec fn bucket(&self, s: int) -> int {
        self.pst_buckets@[s] as int
    }

    /// The number of buckets.
    pub closed spec fn buckets(&self) -> nat {
        self.num_pst_buckets as nat
    }

    /// Whether every bucket is one of those counted, and every input has a number.
    pub closed spec fn well_formed(&self) -> bool {
        &&& self.tables.well_formed()
        &&& 768 * self.num_pst_buckets + 90384 <= usize::MAX
        &&& forall|s: int| 0 <= s < 64 ==> #[trigger] self.pst_buckets@[s] < self.num_pst_buckets
    }

    /// What a mapper of inputs keeps to.
    pub proof fn lemma_bounds(&self)
        requires
            self.well_formed(),
        ensures
            768 * self.buckets() + 90384 <= usize::MAX,
            forall|s: int| 0 <= s < 64 ==> 0 <= #[trigger] self.bucket(s) < self.buckets(),
    {
    }

    /// Inputs with the given buckets, `num_pst_buckets` in number.
    pub fn new(pst_buckets: [usize; 64], num_pst_buckets: usize) -> (inputs: Self)
        requires
            forall|s: int| 0 <= s < 64 ==> #[trigger] pst_buckets@[s] < num_pst_buckets,
            768 * num_pst_buckets + 90384 <= usize::MAX,
        ensures
            inputs.well_formed(),
            inputs.buckets() == num_pst_buckets,
            forall|s: int| 0 <= s < 64 ==> #[trigger] inputs.bucket(s) == pst_buckets@[s],
    {
        PstPlusThreatInputs { pst_buckets, num_pst_buckets, tables: Arc::new(ThreatTables::build()) }
    }

    /// The number of inputs.
    pub fn num_inputs(&self) -> (n: usize)
        requires
            self.well_formed(),
        ensures
            n == 768 * self.buckets() + 90384,
            self.buckets() == INPUT_BUCKETS ==> n == COMBINED_INPUTS,
    {
        proof {
            self.tables.lemma_size();
        }
        768 * self.num_pst_buckets + self.tables.threat_count()
    }

    /// The number of inputs that a position is expected to activate at most.
    pub fn max_active(&self) -> (n: usize)
        ensures
            n == 160,
    {
        160
    }

    /// The inputs that a position activates, for the side to move and for the other
    /// side. `pst` holds its piece-square inputs before they are put in buckets.
    pub fn map_features(&self, pos: &Board, pst: &Vec<(usize, usize)>) -> (features: Vec<
        (usize, usize),
    >)
        requires
            self.well_formed(),
            pos.valid(),
            pos.ksq < 64,
            pos.opp_ksq < 64,
            forall|i: int|
                #![trigger pst@[i]]
                0 <= i < pst@.len() ==> {
                    &&& 768 * self.bucket(pos.ksq as int) + pst@[i].0 <= usize::MAX
                    &&& 768 * self.bucket(pos.opp_ksq as int) + pst@[i].1 <= usize::MAX
                },
        ensures
            as_ints(features@) == shifted(
                as_ints(pst@),
                768 * self.bucket(pos.ksq as int),
                768 * self.bucket(pos.opp_ksq as int),
            ) + shifted(
                threat_pairs(pos@),
                768 * self.buckets() as int,
                768 * self.buckets() as int,
            ),
            features@.len() == pst@.len() + threat_pairs(pos@).len(),
            forall|i: int|
                #![trigger features@[i]]
                0 <= i < pst@.len() ==> {
                    &&& features@[i].0 == 768 * self.bucket(pos.ksq as int) + pst@[i].0
                    &&& features@[i].1 == 768 * self.bucket(pos.opp_ksq as int) + pst@[i].1
                },
            forall|j: int|
                #![trigger threat_pairs(pos@)[j]]
                0 <= j < threat_pairs(pos@).len() ==> {
                    &&& features@[pst@.len() + j].0 == 768 * self.buckets() + threat_pairs(pos@)[j].0
                    &&& features@[pst@.len() + j].1 == 768 * self.buckets() + threat_pairs(pos@)[j].1
                },
    {
        let our_bucket: usize = 768 * self.pst_buckets[pos.our_ksq() as usize];
        let opp_bucket: usize = 768 * self.pst_buckets[pos.opp_ksq() as usize];
        let mut features: Vec<(usize, usize)> = Vec::new();
        let ghost first = shifted(as_ints(pst@), our_bucket as int, opp_bucket as int);
        let mut i: usize = 0;
        while i < pst.len()
            invariant
                i <= pst@.len(),
                first == shifted(as_ints(pst@), our_bucket as int, opp_bucket as int),
                forall|k: int|
                    #![trigger pst@[k]]
                    0 <= k < pst@.len() ==> our_bucket + pst@[k].0 <= usize::MAX && opp_bucket
                        + pst@[k].1 <= usize::MAX,
                as_ints(features@) == first.take(i as int),
            decreases pst@.len() - i,
        {
            let (stm, ntm): (usize, usize) = pst[i];
            let ghost before = features@;
            features.push((our_bucket + stm, opp_bucket + ntm));
            proof {
                assert(first[i as int] == (our_bucket + stm, opp_bucket + ntm));
                assert(as_ints(features@) =~= as_ints(before).push(first[i as int]));
                assert(as_ints(features@) =~= first.take(i + 1));
            }
            i = i + 1;
        }
        proof {
            assert(first.take(first.len() as int) =~= first);
        }
        let threat_base: usize = 768 * self.num_pst_buckets;
        let pairs: Vec<(usize, usize)> = emit_threat_pairs(pos, &self.tables);
        let ghost second = shifted(threat_pairs(pos@), threat_base as int, threat_base as int);
        proof {
            self.tables.lemma_size();
            assert(first + second.take(0) =~= first);
        }
        let mut j: usize = 0;
        while j < pairs.len()
            invariant
                j <= pairs@.len(),
                threat_base + 90384 <= usize::MAX,
                as_ints(pairs@) == threat_pairs(pos@),
                second == shifted(threat_pairs(pos@), threat_base as int, threat_base as int),
                forall|k: int|
                    0 <= k < pairs@.len() ==> (#[trigger] pairs@[k]).0 < 90384 && pairs@[k].1
                        < 90384,
                as_ints(features@) == first + second.take(j as int),
            decreases pairs@.len() - j,
        {
            let (stm, ntm): (usize, usize) = pairs[j];
            let ghost before = features@;
            features.push((threat_base + stm, threat_base + ntm));
            proof {
                assert(as_ints(pairs@)[j as int] == (stm as int, ntm as int));
                assert(second[j as int] == (threat_base + stm, threat_base + ntm));
                assert(as_ints(features@) =~= as_ints(before).push(second[j as int]));
                assert(as_ints(features@) =~= first + second.take(j + 1));
            }
            j = j + 1;
        }
        proof {
            assert(second.take(second.len() as int) =~= second);
            let all = as_ints(features@);
            assert(all == first + second);
            assert forall|i: int|
                #![trigger features@[i]]
                0 <= i < pst@.len() implies features@[i].0 == our_bucket + pst@[i].0
                && features@[i].1 == opp_bucket + pst@[i].1 by {
                assert(all[i] == (features@[i].0 as int, features@[i].1 as int));
                assert(all[i] == first[i]);
            }
            assert forall|j: int|
                #![trigger threat_pairs(pos@)[j]]
                0 <= j < threat_pairs(pos@).len() implies features@[pst@.len() + j].0
                == threat_base + threat_pairs(pos@)[j].0 && features@[pst@.len() + j].1
                == threat_base + threat_pairs(pos@)[j].1 by {
                let i = pst@.len() + j;
                assert(all[i] == (features@[i].0 as int, features@[i].1 as int));
                assert(all[i] == second[j]);
            }
        }
        features
    }

    /// A short name of the inputs.
    pub fn shorthand(&self) -> (s: String)
        requires
            self.well_formed(),
        ensures
            s@ == "768x"@ + decimal(self.buckets()) + "+threats"@ + decimal(90384),
    {
        proof {
            self.tables.lemma_size();
        }
        let mut s: String = String::from_str("768x");
        let buckets: String = decimal_string(self.num_pst_buckets);
        let threats: String = decimal_string(self.tables.threat_count());
        s.append(buckets.as_str());
        s.append("+threats");
        s.append(threats.as_str());
        s
    }

    /// What the inputs are.
    pub fn description(&self) -> (s: String)
        ensures
            s@ == "King-bucketed PSQT + summed threat accumulator inputs"@,
    {
        String::from_str("King-bucketed PSQT + summed threat accumulator inputs")
    }

    /// If the piece-square inputs are among the 768 of a bucket, every input that a
    /// position activates has a number below the number of inputs, and the threats
    /// come after all buckets.
    pub proof fn lemma_features_in_range(&self, pos: Board, pst: Seq<(int, int)>)
        requires
            self.well_formed(),
            pos.valid(),
            pos.ksq < 64,
            pos.opp_ksq < 64,
            forall|i: int|
                0 <= i < pst.len() ==> 0 <= (#[trigger] pst[i]).0 < 768 && 0 <= pst[i].1 < 768,
        ensures
            ({
                let n = 768 * self.buckets() as int;
                let placed = shifted(
                    pst,
                    768 * self.bucket(pos.ksq as int),
                    768 * self.bucket(pos.opp_ksq as int),
                );
                let threats = shifted(threat_pairs(pos@), n, n);
                &&& forall|i: int|
                    0 <= i < placed.len() ==> 0 <= (#[trigger] placed[i]).0 < n && 0 <= placed[i].1
                        < n
                &&& forall|i: int|
                    0 <= i < threats.len() ==> n <= (#[trigger] threats[i]).0 < n + 90384 && n
                        <= threats[i].1 < n + 90384
            }),
    {
        lemma_valid_position(pos);
        lemma_pairs_distinct(pos@);
        lemma_block_size();
        assert(self.bucket(pos.ksq as int) < self.buckets());
        assert(self.bucket(pos.opp_ksq as int) < self.buckets());
        let n = 768 * self.buckets() as int;
        let threats = shifted(threat_pairs(pos@), n, n);
        assert forall|i: int| 0 <= i < threats.len() implies n <= (#[trigger] threats[i]).0 < n
            + 90384 && n <= threats[i].1 < n + 90384 by {
            let p = threat_pairs(pos@)[i];
            assert(threats[i] == (n + p.0, n + p.1));
        }
    }
}

} // verus!
