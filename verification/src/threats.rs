//! The threats on a board.

use crate::attacks::{
    attacks, lemma_reaches_mirrored, raw_attacks_bb, toggle, variant_index,
};
use crate::bits::{
    bit, contains, count_below, lemma_count_below_grows, lemma_intersection, lemma_nonzero,
    lemma_union, pop_lowest, squares,
};
use crate::board::{expand_board, has_colour, has_kind, packed_piece, Board};
use crate::geometry::{flip, flip_sq};
use crate::layout::{
    block_size, is_numbered, lemma_block_size, lemma_threat_index_in_range,
    lemma_threat_index_injective, threat_index,
};
use crate::tables::ThreatTables;
use vstd::prelude::*;

verus! {

/// Whether a position has 64 squares, and variants on them.
pub open spec fn valid_position(pos: Seq<Option<int>>) -> bool {
    &&& pos.len() == 64
    &&& forall|s: int| 0 <= s < 64 ==> (#[trigger] pos[s] matches Some(v) ==> 0 <= v < 12)
}

/// The occupied squares of a position.
pub open spec fn occupied(pos: Seq<Option<int>>) -> Set<int> {
    Set::new(|s: int| 0 <= s < 64 && pos[s] is Some)
}

/// Whether the variant `attacker` stands on `from` and attacks a piece of either
/// colour on `to`.
pub open spec fn is_threat(pos: Seq<Option<int>>, attacker: int, from: int, to: int) -> bool {
    &&& 0 <= from < 64
    &&& 0 <= to < 64
    &&& pos[from] == Some(attacker)
    &&& pos[to] is Some
    &&& attacks(attacker, from, to, occupied(pos))
}

/// The number of a threat from our side, and its number on the mirrored board with
/// the sides exchanged.
pub open spec fn threat_pair(pos: Seq<Option<int>>, from: int, to: int) -> (int, int) {
    let attacker = pos[from]->0;
    let victim = pos[to]->0;
    (
        threat_index(attacker, from, victim, to),
        threat_index(toggle(attacker), flip(from), toggle(victim), flip(to)),
    )
}

/// Whether place `k` in the order of attacker variant, attacker square and victim
/// square is that of a threat.
pub open spec fn threat_at(pos: Seq<Option<int>>, k: int) -> bool {
    is_threat(pos, k / 4096, (k / 64) % 64, k % 64)
}

/// The attacker and victim squares of the threats before place `k`, in order.
pub open spec fn threats_before(pos: Seq<Option<int>>, k: int) -> Seq<(int, int)>
    decreases k,
{
    if k <= 0 {
        Seq::empty()
    } else if threat_at(pos, k - 1) {
        threats_before(pos, k - 1).push((((k - 1) / 64) % 64, (k - 1) % 64))
    } else {
        threats_before(pos, k - 1)
    }
}

/// The attacker and victim squares of all threats, by attacker variant, then
/// attacker square, then victim square.
pub open spec fn threats(pos: Seq<Option<int>>) -> Seq<(int, int)> {
    threats_before(pos, 12 * 4096int)
}

/// The numbers of all threats, in the order of `threats`.
pub open spec fn threat_pairs(pos: Seq<Option<int>>) -> Seq<(int, int)> {
    threats(pos).map_values(|t: (int, int)| threat_pair(pos, t.0, t.1))
}

/// A pair of machine integers as integers.
pub open spec fn as_ints(pairs: Seq<(usize, usize)>) -> Seq<(int, int)> {
    pairs.map_values(|p: (usize, usize)| (p.0 as int, p.1 as int))
}

/// The numbers of the threats before place `k`.
spec fn pairs_before(pos: Seq<Option<int>>, k: int) -> Seq<(int, int)> {
    threats_before(pos, k).map_values(|t: (int, int)| threat_pair(pos, t.0, t.1))
}

/// The board of a valid packing is a position.
pub proof fn lemma_valid_position(board: Board)
    requires
        board.valid(),
    ensures
        valid_position(board@),
{
    assert forall|s: int| 0 <= s < 64 implies (#[trigger] board@[s] matches Some(v) ==> 0 <= v
        < 12) by {
        if bit(board.occ, s) {
            lemma_count_below_grows(board.occ, s, 64);
            let piece = packed_piece(board.pcs@, count_below(board.occ, s) as int);
            assert(piece % 8 < 6);
        }
    }
}

/// Both numbers of a threat are below the number of threats.
proof fn lemma_pair_in_range(pos: Seq<Option<int>>, attacker: int, from: int, to: int)
    requires
        valid_position(pos),
        is_threat(pos, attacker, from, to),
    ensures
        is_numbered(attacker, from, pos[to]->0, to),
        is_numbered(toggle(attacker), flip(from), toggle(pos[to]->0), flip(to)),
        0 <= threat_pair(pos, from, to).0 < block_size(),
        0 <= threat_pair(pos, from, to).1 < block_size(),
{
    let victim = pos[to]->0;
    assert(pos[from] == Some(attacker));
    lemma_reaches_mirrored(attacker, from, to);
    lemma_reaches_mirrored(victim, to, from);
    lemma_threat_index_in_range(attacker, from, victim, to);
    lemma_threat_index_in_range(toggle(attacker), flip(from), toggle(victim), flip(to));
}

proof fn lemma_no_threats(pos: Seq<Option<int>>, a: int, b: int)
    requires
        0 <= a <= b,
        forall|k: int| a <= k < b ==> !#[trigger] threat_at(pos, k),
    ensures
        threats_before(pos, b) == threats_before(pos, a),
    decreases b,
{
    if a < b {
        assert(!threat_at(pos, b - 1));
        lemma_no_threats(pos, a, b - 1);
    }
}

/// The place of a threat in the order.
spec fn place(variant: int, from: int, to: int) -> int {
    variant * 4096 + from * 64 + to
}

/// Places from that of the target `a` to that of the target `b` hold no threat if
/// none of those targets is attacked.
proof fn lemma_skip_targets(pos: Seq<Option<int>>, variant: int, from: int, a: int, b: int)
    requires
        0 <= variant < 12,
        0 <= from < 64,
        0 <= a <= b <= 64,
        forall|s: int| a <= s < b ==> !#[trigger] is_threat(pos, variant, from, s),
    ensures
        threats_before(pos, place(variant, from, b)) == threats_before(
            pos,
            place(variant, from, a),
        ),
{
    assert forall|k: int| place(variant, from, a) <= k < place(variant, from, b) implies !#[trigger]
        threat_at(pos, k) by {
        assert(k / 4096 == variant && (k / 64) % 64 == from);
        assert(!is_threat(pos, variant, from, k % 64));
    }
    lemma_no_threats(pos, place(variant, from, a), place(variant, from, b));
}

/// Places from that of the attacker square `a` to that of the attacker square `b`
/// hold no threat if the variant stands on none of those squares.
proof fn lemma_skip_attackers(pos: Seq<Option<int>>, variant: int, a: int, b: int)
    requires
        0 <= variant < 12,
        0 <= a <= b <= 64,
        forall|s: int| a <= s < b ==> #[trigger] pos[s] != Some(variant),
    ensures
        threats_before(pos, place(variant, b, 0)) == threats_before(pos, place(variant, a, 0)),
{
    assert forall|k: int| place(variant, a, 0) <= k < place(variant, b, 0) implies !#[trigger]
        threat_at(pos, k) by {
        assert(k / 4096 == variant);
        let from = (k / 64) % 64;
        assert(a <= from < b);
        assert(pos[from] != Some(variant));
    }
    lemma_no_threats(pos, place(variant, a, 0), place(variant, b, 0));
}

/// The kind of the piece on an occupied square.
fn kind_on(piece_bb: &[u64; 6], sq: u8, Ghost(pos): Ghost<Seq<Option<int>>>) -> (pt: usize)
    requires
        sq < 64,
        valid_position(pos),
        pos[sq as int] is Some,
        forall|pt: int, s: int|
            0 <= pt < 6 ==> (#[trigger] bit(piece_bb@[pt], s) <==> has_kind(pos, pt, s)),
    ensures
        pt < 6,
        has_kind(pos, pt as int, sq as int),
{
    let mut pt: usize = 0;
    while pt < 5
        invariant
            pt <= 5,
            sq < 64,
            valid_position(pos),
            pos[sq as int] is Some,
            forall|p: int, s: int|
                0 <= p < 6 ==> (#[trigger] bit(piece_bb@[p], s) <==> has_kind(pos, p, s)),
            forall|p: int| 0 <= p < pt ==> !#[trigger] has_kind(pos, p, sq as int),
        decreases 5 - pt,
    {
        if contains(piece_bb[pt], sq) {
            return pt;
        }
        pt = pt + 1;
    }
    proof {
        let p = pos[sq as int]->0 % 6;
        assert(has_kind(pos, p, sq as int));
    }
    pt
}

/// The variant of the same kind on the other side.
fn toggle_variant(variant: usize) -> (other: usize)
    requires
        variant < 12,
    ensures
        other == toggle(variant as int),
        other < 12,
{
    (variant + 6) % 12
}

proof fn lemma_threats_before_sound(pos: Seq<Option<int>>, k: int)
    requires
        0 <= k <= 12 * 4096,
    ensures
        forall|i: int|
            #![trigger threats_before(pos, k)[i]]
            0 <= i < threats_before(pos, k).len() ==> {
                let (from, to) = threats_before(pos, k)[i];
                &&& is_threat(pos, pos[from]->0, from, to)
                &&& place(pos[from]->0, from, to) < k
            },
        forall|i: int, j: int|
            #![trigger threats_before(pos, k)[i], threats_before(pos, k)[j]]
            0 <= i < j < threats_before(pos, k).len() ==> {
                let (f1, t1) = threats_before(pos, k)[i];
                let (f2, t2) = threats_before(pos, k)[j];
                place(pos[f1]->0, f1, t1) < place(pos[f2]->0, f2, t2)
            },
    decreases k,
{
    if k > 0 {
        lemma_threats_before_sound(pos, k - 1);
        if threat_at(pos, k - 1) {
            let (attacker, from, to) = ((k - 1) / 4096, ((k - 1) / 64) % 64, (k - 1) % 64);
            assert(place(attacker, from, to) == k - 1);
            assert(pos[from] == Some(attacker));
        }
    }
}

proof fn lemma_threats_before_complete(
    pos: Seq<Option<int>>,
    k: int,
    attacker: int,
    from: int,
    to: int,
)
    requires
        0 <= attacker,
        is_threat(pos, attacker, from, to),
        place(attacker, from, to) < k,
    ensures
        threats_before(pos, k).contains((from, to)),
    decreases k,
{
    if place(attacker, from, to) == k - 1 {
        lemma_threat_step(pos, attacker, from, to);
        assert(threats_before(pos, k).last() == (from, to));
    } else {
        lemma_threats_before_complete(pos, k - 1, attacker, from, to);
        let before = threats_before(pos, k - 1);
        let i = choose|i: int| 0 <= i < before.len() && before[i] == (from, to);
        assert(threats_before(pos, k)[i] == (from, to));
    }
}

/// The list of threats holds every threat of the position, each once, and nothing
/// else.
pub proof fn lemma_threats_each_once(pos: Seq<Option<int>>)
    requires
        valid_position(pos),
    ensures
        forall|from: int, to: int| #[trigger]
            threats(pos).contains((from, to)) <==> is_threat(pos, pos[from]->0, from, to),
        threats(pos).no_duplicates(),
{
    lemma_threats_before_sound(pos, 12 * 4096int);
    assert forall|from: int, to: int| #[trigger]
        threats(pos).contains((from, to)) <==> is_threat(pos, pos[from]->0, from, to) by {
        if is_threat(pos, pos[from]->0, from, to) {
            assert(0 <= pos[from]->0 < 12);
            lemma_threats_before_complete(pos, 12 * 4096int, pos[from]->0, from, to);
        }
        if threats(pos).contains((from, to)) {
            let i = choose|i: int| 0 <= i < threats(pos).len() && threats(pos)[i] == (from, to);
            assert(threats_before(pos, 12 * 4096int)[i] == (from, to));
        }
    }
}

/// The threats are the attacks between pieces: the list holds a pair of squares
/// exactly if a piece stands on the one, a piece of either colour stands on the
/// other, and the first attacks the second past all the pieces of the board.
pub proof fn lemma_threats_are_attacks(pos: Seq<Option<int>>, from: int, to: int)
    requires
        pos.len() == 64,
        forall|s: int| 0 <= s < 64 ==> (#[trigger] pos[s] matches Some(v) ==> 0 <= v < 12),
    ensures
        threats(pos).contains((from, to)) <==> {
            &&& 0 <= from < 64
            &&& 0 <= to < 64
            &&& pos[from] is Some
            &&& pos[to] is Some
            &&& attacks(
                pos[from]->0,
                from,
                to,
                Set::new(|s: int| 0 <= s < 64 && pos[s] is Some),
            )
        },
{
    lemma_threats_each_once(pos);
    assert(occupied(pos) =~= Set::new(|s: int| 0 <= s < 64 && pos[s] is Some));
    assert(threats(pos).contains((from, to)) <==> is_threat(pos, pos[from]->0, from, to));
}

/// The threats come by the variant of the attacker, among those of one variant by its
/// square, and last by the square of the victim. No threat comes twice.
pub proof fn lemma_threats_in_order(pos: Seq<Option<int>>, i: int, j: int)
    requires
        pos.len() == 64,
        forall|s: int| 0 <= s < 64 ==> (#[trigger] pos[s] matches Some(v) ==> 0 <= v < 12),
        0 <= i < j < threats(pos).len(),
    ensures
        ({
            let (f1, t1) = threats(pos)[i];
            let (f2, t2) = threats(pos)[j];
            ||| pos[f1]->0 < pos[f2]->0
            ||| pos[f1]->0 == pos[f2]->0 && f1 < f2
            ||| pos[f1]->0 == pos[f2]->0 && f1 == f2 && t1 < t2
        }),
{
    lemma_threats_before_sound(pos, 12 * 4096int);
    let list = threats_before(pos, 12 * 4096int);
    let (f1, t1) = list[i];
    let (f2, t2) = list[j];
    assert(is_threat(pos, pos[f1]->0, f1, t1));
    assert(is_threat(pos, pos[f2]->0, f2, t2));
    assert(place(pos[f1]->0, f1, t1) < place(pos[f2]->0, f2, t2));
}

proof fn lemma_from_other_side(variant: int, s: int)
    requires
        0 <= variant < 12,
        0 <= s < 64,
    ensures
        toggle(variant) == if variant < 6 {
            variant + 6
        } else {
            variant - 6
        },
        toggle(variant) == (variant + 6) % 12,
        flip(s) == 8 * (7 - s / 8) + s % 8,
{
}

/// Each threat has two numbers, in its place in the list. The first is that of the
/// attacker and the victim as they stand. The second is that of the same two kinds
/// with the sides exchanged, on the squares of the same files and the opposite ranks.
pub proof fn lemma_pairs_of_threats(pos: Seq<Option<int>>, i: int)
    requires
        pos.len() == 64,
        forall|s: int| 0 <= s < 64 ==> (#[trigger] pos[s] matches Some(v) ==> 0 <= v < 12),
        0 <= i < threats(pos).len(),
    ensures
        threat_pairs(pos).len() == threats(pos).len(),
        ({
            let (from, to) = threats(pos)[i];
            let a = pos[from]->0;
            let v = pos[to]->0;
            &&& threat_pairs(pos)[i].0 == threat_index(a, from, v, to)
            &&& threat_pairs(pos)[i].1 == threat_index(
                if a < 6 {
                    a + 6
                } else {
                    a - 6
                },
                8 * (7 - from / 8) + from % 8,
                if v < 6 {
                    v + 6
                } else {
                    v - 6
                },
                8 * (7 - to / 8) + to % 8,
            )
        }),
{
    let (from, to) = threats(pos)[i];
    assert(threats(pos).contains((from, to)));
    lemma_threats_are_attacks(pos, from, to);
    lemma_from_other_side(pos[from]->0, from);
    lemma_from_other_side(pos[to]->0, to);
    assert(threat_pairs(pos)[i] == threat_pair(pos, from, to));
}

/// Two threats share neither number.
proof fn lemma_two_pairs(pos: Seq<Option<int>>, f1: int, t1: int, f2: int, t2: int)
    requires
        valid_position(pos),
        is_threat(pos, pos[f1]->0, f1, t1),
        is_threat(pos, pos[f2]->0, f2, t2),
        (f1, t1) != (f2, t2),
    ensures
        threat_pair(pos, f1, t1).0 != threat_pair(pos, f2, t2).0,
        threat_pair(pos, f1, t1).1 != threat_pair(pos, f2, t2).1,
{
    let (a1, v1) = (pos[f1]->0, pos[t1]->0);
    let (a2, v2) = (pos[f2]->0, pos[t2]->0);
    lemma_pair_in_range(pos, a1, f1, t1);
    lemma_pair_in_range(pos, a2, f2, t2);
    if threat_pair(pos, f1, t1).0 == threat_pair(pos, f2, t2).0 {
        lemma_threat_index_injective(a1, f1, v1, t1, a2, f2, v2, t2);
    }
    if threat_pair(pos, f1, t1).1 == threat_pair(pos, f2, t2).1 {
        lemma_threat_index_injective(
            toggle(a1),
            flip(f1),
            toggle(v1),
            flip(t1),
            toggle(a2),
            flip(f2),
            toggle(v2),
            flip(t2),
        );
        lemma_reaches_mirrored(a1, f1, t1);
        lemma_reaches_mirrored(a1, t1, f1);
        lemma_reaches_mirrored(a2, f2, t2);
        lemma_reaches_mirrored(a2, t2, f2);
    }
}

/// No two threats of a position share a number, neither from our side nor from the
/// mirrored side, and all numbers are below the number of threats.
pub proof fn lemma_pairs_distinct(pos: Seq<Option<int>>)
    requires
        valid_position(pos),
    ensures
        threat_pairs(pos).no_duplicates(),
        forall|i: int, j: int|
            0 <= i < j < threat_pairs(pos).len() ==> (#[trigger] threat_pairs(pos)[i]).0 != (
            #[trigger] threat_pairs(pos)[j]).0 && threat_pairs(pos)[i].1 != threat_pairs(pos)[j].1,
        forall|i: int|
            0 <= i < threat_pairs(pos).len() ==> 0 <= (#[trigger] threat_pairs(pos)[i]).0
                < block_size() && 0 <= threat_pairs(pos)[i].1 < block_size(),
{
    lemma_threats_each_once(pos);
    let pairs = threat_pairs(pos);
    let list = threats(pos);
    assert forall|i: int| 0 <= i < pairs.len() implies 0 <= (#[trigger] pairs[i]).0 < block_size()
        && 0 <= pairs[i].1 < block_size() by {
        let (from, to) = list[i];
        assert(list.contains((from, to)));
        lemma_pair_in_range(pos, pos[from]->0, from, to);
    }
    assert forall|i: int, j: int| 0 <= i < j < pairs.len() implies (#[trigger] pairs[i]).0 != (
    #[trigger] pairs[j]).0 && pairs[i].1 != pairs[j].1 by {
        let (f1, t1) = list[i];
        let (f2, t2) = list[j];
        assert(list.contains((f1, t1)));
        assert(list.contains((f2, t2)));
        lemma_two_pairs(pos, f1, t1, f2, t2);
    }
}

/// A board unpacked into bitboards.
struct Bitboards {
    color_bb: [u64; 2],
    piece_bb: [u64; 6],
    occ: u64,
}

impl Bitboards {
    /// Whether the bitboards are those of the position `pos`.
    spec fn show(&self, pos: Seq<Option<int>>) -> bool {
        &&& valid_position(pos)
        &&& squares(self.occ) == occupied(pos)
        &&& forall|c: int, s: int|
            0 <= c < 2 ==> (#[trigger] bit(self.color_bb@[c], s) <==> has_colour(pos, c, s))
        &&& forall|pt: int, s: int|
            0 <= pt < 6 ==> (#[trigger] bit(self.piece_bb@[pt], s) <==> has_kind(pos, pt, s))
    }
}

/// Whether `pairs` holds the numbers of the threats before place `k`, and all of
/// them are below the number of threats.
spec fn holds_before(pairs: Seq<(usize, usize)>, pos: Seq<Option<int>>, k: int) -> bool {
    &&& as_ints(pairs) == pairs_before(pos, k)
    &&& forall|i: int|
        0 <= i < pairs.len() ==> (#[trigger] pairs[i]).0 < block_size() && pairs[i].1
            < block_size()
}

proof fn lemma_parts_of_place(variant: int, from: int, to: int)
    requires
        0 <= from < 64,
        0 <= to < 64,
    ensures
        place(variant, from, to) / 4096 == variant,
        (place(variant, from, to) / 64) % 64 == from,
        place(variant, from, to) % 64 == to,
{
}

proof fn lemma_threat_step(pos: Seq<Option<int>>, attacker: int, from: int, to: int)
    requires
        0 <= attacker,
        is_threat(pos, attacker, from, to),
    ensures
        threats_before(pos, place(attacker, from, to) + 1) == threats_before(
            pos,
            place(attacker, from, to),
        ).push((from, to)),
{
    lemma_parts_of_place(attacker, from, to);
    let k = place(attacker, from, to) + 1;
    assert(threat_at(pos, k - 1));
}

proof fn lemma_one_more(
    pairs: Seq<(usize, usize)>,
    pos: Seq<Option<int>>,
    attacker: int,
    from: int,
    to: int,
    pair: (usize, usize),
)
    requires
        valid_position(pos),
        is_threat(pos, attacker, from, to),
        holds_before(pairs, pos, place(attacker, from, to)),
        (pair.0 as int, pair.1 as int) == threat_pair(pos, from, to),
    ensures
        holds_before(pairs.push(pair), pos, place(attacker, from, to + 1)),
{
    let k = place(attacker, from, to);
    lemma_pair_in_range(pos, attacker, from, to);
    lemma_threat_step(pos, attacker, from, to);
    assert(pairs_before(pos, k + 1) =~= pairs_before(pos, k).push(threat_pair(pos, from, to)));
    assert(as_ints(pairs.push(pair)) =~= as_ints(pairs).push((pair.0 as int, pair.1 as int)));
}

/// Appends the numbers of the threat of the piece on `sq` against the piece on
/// `vsq`.
fn emit_threat(
    boards: &Bitboards,
    tables: &ThreatTables,
    attacker_variant: usize,
    sq: u8,
    vsq: u8,
    pairs: &mut Vec<(usize, usize)>,
    Ghost(pos): Ghost<Seq<Option<int>>>,
)
    requires
        boards.show(pos),
        tables.well_formed(),
        attacker_variant < 12,
        sq < 64,
        vsq < 64,
        is_threat(pos, attacker_variant as int, sq as int, vsq as int),
        holds_before(
            old(pairs)@,
            pos,
            place(attacker_variant as int, sq as int, vsq as int),
        ),
    ensures
        holds_before(
            final(pairs)@,
            pos,
            place(attacker_variant as int, sq as int, vsq + 1),
        ),
{
    let victim_is_us: bool = contains(boards.color_bb[0], vsq);
    let victim_pt: usize = kind_on(&boards.piece_bb, vsq, Ghost(pos));
    let victim_variant: usize = variant_index(victim_is_us, victim_pt);
    let ghost a = attacker_variant as int;
    let ghost f = sq as int;
    let ghost t = vsq as int;
    proof {
        assert(has_colour(pos, 0, t) <==> victim_is_us);
        assert(pos[t] == Some(victim_variant as int));
        lemma_pair_in_range(pos, a, f, t);
        lemma_block_size();
    }
    let stm_local: usize = tables.local_index(attacker_variant, sq, victim_variant, vsq);
    let ntm_attacker_variant: usize = toggle_variant(attacker_variant);
    let ntm_victim_variant: usize = toggle_variant(victim_variant);
    let ntm_local: usize = tables.local_index(
        ntm_attacker_variant,
        flip_sq(sq),
        ntm_victim_variant,
        flip_sq(vsq),
    );
    proof {
        lemma_one_more(pairs@, pos, a, f, t, (stm_local, ntm_local));
    }
    pairs.push((stm_local, ntm_local));
}

/// Appends the numbers of the threats of the piece on `sq`.
fn emit_targets(
    boards: &Bitboards,
    tables: &ThreatTables,
    attacker_variant: usize,
    sq: u8,
    pairs: &mut Vec<(usize, usize)>,
    Ghost(pos): Ghost<Seq<Option<int>>>,
)
    requires
        boards.show(pos),
        tables.well_formed(),
        attacker_variant < 12,
        sq < 64,
        pos[sq as int] == Some(attacker_variant as int),
        holds_before(old(pairs)@, pos, place(attacker_variant as int, sq as int, 0)),
    ensures
        holds_before(final(pairs)@, pos, place(attacker_variant as int, sq + 1, 0)),
{
    let reached: u64 = raw_attacks_bb(attacker_variant, sq, boards.occ);
    let mut t: u64 = reached & boards.occ;
    let ghost mut next: int = 0;
    proof {
        lemma_intersection(reached, boards.occ);
        assert forall|s: int| #[trigger] bit(t, s) <==> is_threat(
            pos,
            attacker_variant as int,
            sq as int,
            s,
        ) by {
            assert(bit(boards.occ, s) <==> squares(boards.occ).contains(s));
        }
    }
    while t != 0
        invariant
            boards.show(pos),
            tables.well_formed(),
            attacker_variant < 12,
            sq < 64,
            pos[sq as int] == Some(attacker_variant as int),
            0 <= next <= 64,
            forall|s: int| #[trigger]
                bit(t, s) <==> next <= s && is_threat(pos, attacker_variant as int, sq as int, s),
            holds_before(pairs@, pos, place(attacker_variant as int, sq as int, next)),
        decreases t,
    {
        let (vsq, rest) = pop_lowest(t);
        proof {
            assert forall|s: int| next <= s < vsq implies !#[trigger] is_threat(
                pos,
                attacker_variant as int,
                sq as int,
                s,
            ) by {
                assert(!bit(t, s));
            }
            lemma_skip_targets(pos, attacker_variant as int, sq as int, next, vsq as int);
        }
        t = rest;
        emit_threat(boards, tables, attacker_variant, sq, vsq, pairs, Ghost(pos));
        proof {
            next = vsq + 1;
        }
    }
    proof {
        lemma_nonzero(t);
        assert forall|s: int| next <= s < 64 implies !#[trigger] is_threat(
            pos,
            attacker_variant as int,
            sq as int,
            s,
        ) by {
            assert(!bit(t, s));
        }
        lemma_skip_targets(pos, attacker_variant as int, sq as int, next, 64);
    }
}

/// Appends the numbers of the threats of one attacker variant.
fn emit_attackers(
    boards: &Bitboards,
    tables: &ThreatTables,
    is_us_attacker: bool,
    pt: usize,
    pairs: &mut Vec<(usize, usize)>,
    Ghost(pos): Ghost<Seq<Option<int>>>,
)
    requires
        boards.show(pos),
        tables.well_formed(),
        pt < 6,
        holds_before(
            old(pairs)@,
            pos,
            place(
                if is_us_attacker {
                    pt as int
                } else {
                    6 + pt
                },
                0,
                0,
            ),
        ),
    ensures
        holds_before(
            final(pairs)@,
            pos,
            place(
                if is_us_attacker {
                    pt + 1
                } else {
                    7 + pt
                },
                0,
                0,
            ),
        ),
{
    let attacker_side_bb: u64 = if is_us_attacker {
        boards.color_bb[0]
    } else {
        boards.color_bb[1]
    };
    let attacker_variant: usize = variant_index(is_us_attacker, pt);
    let mut bb: u64 = boards.piece_bb[pt] & attacker_side_bb;
    let ghost mut next: int = 0;
    proof {
        lemma_intersection(boards.piece_bb@[pt as int], attacker_side_bb);
        let c: int = if is_us_attacker {
            0
        } else {
            1
        };
        assert forall|s: int| #[trigger] bit(bb, s) <==> 0 <= s < 64 && pos[s] == Some(
            attacker_variant as int,
        ) by {
            assert(bit(boards.piece_bb@[pt as int], s) <==> has_kind(pos, pt as int, s));
            assert(bit(boards.color_bb@[c], s) <==> has_colour(pos, c, s));
        }
    }
    while bb != 0
        invariant
            boards.show(pos),
            tables.well_formed(),
            attacker_variant < 12,
            0 <= next <= 64,
            forall|s: int| #[trigger]
                bit(bb, s) <==> 0 <= next <= s < 64 && pos[s] == Some(attacker_variant as int),
            holds_before(pairs@, pos, place(attacker_variant as int, next, 0)),
        decreases bb,
    {
        let (sq, rest) = pop_lowest(bb);
        proof {
            assert forall|s: int| next <= s < sq implies #[trigger] pos[s] != Some(
                attacker_variant as int,
            ) by {
                assert(!bit(bb, s));
            }
            lemma_skip_attackers(pos, attacker_variant as int, next, sq as int);
        }
        bb = rest;
        emit_targets(boards, tables, attacker_variant, sq, pairs, Ghost(pos));
        proof {
            next = sq + 1;
        }
    }
    proof {
        lemma_nonzero(bb);
        assert forall|s: int| next <= s < 64 implies #[trigger] pos[s] != Some(
            attacker_variant as int,
        ) by {
            assert(!bit(bb, s));
        }
        lemma_skip_attackers(pos, attacker_variant as int, next, 64);
    }
}

/// The numbers of every threat on the board, of either colour's pieces against any
/// occupied square, from our side and from the mirrored side.
pub fn emit_threat_pairs(pos: &Board, tables: &ThreatTables) -> (pairs: Vec<(usize, usize)>)
    requires
        pos.valid(),
        tables.well_formed(),
    ensures
        as_ints(pairs@) == threat_pairs(pos@),
        forall|i: int|
            0 <= i < pairs@.len() ==> (#[trigger] pairs@[i]).0 < tables.size() && pairs@[i].1
                < tables.size(),
        forall|from: int, to: int| #[trigger]
            threats(pos@).contains((from, to)) <==> {
                &&& 0 <= from < 64
                &&& 0 <= to < 64
                &&& pos@[from] is Some
                &&& pos@[to] is Some
                &&& attacks(
                    pos@[from]->0,
                    from,
                    to,
                    Set::new(|s: int| 0 <= s < 64 && pos@[s] is Some),
                )
            },
        pairs@.len() == threats(pos@).len(),
        forall|i: int|
            #![trigger pairs@[i]]
            0 <= i < pairs@.len() ==> {
                let (from, to) = threats(pos@)[i];
                let a = pos@[from]->0;
                let v = pos@[to]->0;
                &&& pairs@[i].0 == threat_index(a, from, v, to)
                &&& pairs@[i].1 == threat_index(
                    (a + 6) % 12,
                    8 * (7 - from / 8) + from % 8,
                    (v + 6) % 12,
                    8 * (7 - to / 8) + to % 8,
                )
            },
{
    let (color_bb, piece_bb) = expand_board(*pos);
    let occ: u64 = color_bb[0] | color_bb[1];
    let boards = Bitboards { color_bb, piece_bb, occ };
    let mut pairs: Vec<(usize, usize)> = Vec::new();
    let ghost view = pos@;
    proof {
        tables.lemma_size();
        lemma_valid_position(*pos);
        lemma_union(color_bb@[0], color_bb@[1]);
        assert forall|s: int| #[trigger] bit(occ, s) <==> occupied(view).contains(s) by {
            assert(bit(color_bb@[0], s) <==> has_colour(view, 0, s));
            assert(bit(color_bb@[1], s) <==> has_colour(view, 1, s));
        }
        assert(squares(occ) =~= occupied(view));
        assert(as_ints(pairs@) =~= pairs_before(view, 0));
    }
    let mut pt: usize = 0;
    while pt < 6
        invariant
            pt <= 6,
            tables.well_formed(),
            boards.show(view),
            holds_before(pairs@, view, place(pt as int, 0, 0)),
        decreases 6 - pt,
    {
        emit_attackers(&boards, tables, true, pt, &mut pairs, Ghost(view));
        pt = pt + 1;
    }
    pt = 0;
    while pt < 6
        invariant
            pt <= 6,
            tables.well_formed(),
            boards.show(view),
            holds_before(pairs@, view, place(6 + pt, 0, 0)),
        decreases 6 - pt,
    {
        emit_attackers(&boards, tables, false, pt, &mut pairs, Ghost(view));
        pt = pt + 1;
    }
    proof {
        assert(as_ints(pairs@) =~= threat_pairs(view));
        assert(threats(view).len() == threat_pairs(view).len());
        assert forall|from: int, to: int| #[trigger] threats(view).contains((from, to)) <==> {
            &&& 0 <= from < 64
            &&& 0 <= to < 64
            &&& view[from] is Some
            &&& view[to] is Some
            &&& attacks(
                view[from]->0,
                from,
                to,
                Set::new(|s: int| 0 <= s < 64 && view[s] is Some),
            )
        } by {
            lemma_threats_are_attacks(view, from, to);
        }
        assert forall|i: int| #![trigger pairs@[i]] 0 <= i < pairs@.len() implies {
            let (from, to) = threats(view)[i];
            let a = view[from]->0;
            let v = view[to]->0;
            &&& pairs@[i].0 == threat_index(a, from, v, to)
            &&& pairs@[i].1 == threat_index(
                (a + 6) % 12,
                8 * (7 - from / 8) + from % 8,
                (v + 6) % 12,
                8 * (7 - to / 8) + to % 8,
            )
        } by {
            let (from, to) = threats(view)[i];
            assert(threats(view).contains((from, to)));
            lemma_threats_are_attacks(view, from, to);
            lemma_from_other_side(view[from]->0, from);
            lemma_from_other_side(view[to]->0, to);
            lemma_pairs_of_threats(view, i);
            assert(as_ints(pairs@)[i] == (pairs@[i].0 as int, pairs@[i].1 as int));
        }
    }
    pairs
}

} // verus!
