//! A position, packed as its occupied squares and four bits for each piece.

use crate::bits::{
    bit, count, count_below, lemma_count_below_grows, lemma_count_below_stretch, lemma_empty,
    lemma_nonzero, lemma_union, pop_lowest, single,
};
use vstd::prelude::*;

verus! {

/// A position seen by the side to move.
///
/// The pieces are listed by ascending square. Piece `k` is the low half of byte
/// `k / 2` of `pcs` if `k` is even and the high half if it is odd: its kind, plus 8
/// if the piece is theirs.
#[derive(Clone, Copy, Debug, PartialEq, Eq)]
pub struct Board {
    /// The occupied squares.
    pub occ: u64,
    /// The pieces.
    pub pcs: [u8; 16],
    /// The square of our king.
    pub ksq: u8,
    /// The square of their king, seen from their side.
    pub opp_ksq: u8,
}

/// Piece `k` of a packed list.
pub open spec fn packed_piece(pcs: Seq<u8>, k: int) -> u8 {
    if k % 2 == 0 {
        pcs[k / 2] % 16
    } else {
        pcs[k / 2] / 16
    }
}

/// The variant of a packed piece.
pub open spec fn piece_variant(piece: u8) -> int {
    piece % 8 + if piece >= 8 {
        6int
    } else {
        0
    }
}

/// Two pieces are packed in a byte, four bits each, the first in the low half: the
/// two together make up the byte.
pub proof fn lemma_packed_piece(pcs: Seq<u8>, i: int)
    ensures
        packed_piece(pcs, 2 * i) < 16,
        packed_piece(pcs, 2 * i + 1) < 16,
        packed_piece(pcs, 2 * i + 1) * 16 + packed_piece(pcs, 2 * i) == pcs[i],
{
}

/// The low three bits of a packed piece are its kind, and the next tells the side.
pub proof fn lemma_piece_variant(piece: u8)
    requires
        piece < 16,
        piece & 7 < 6,
    ensures
        0 <= piece_variant(piece) < 12,
        piece_variant(piece) % 6 == piece & 7,
        piece_variant(piece) < 6 <==> piece & 8 == 0,
{
    assert(piece & 7 == piece % 8) by (bit_vector);
    assert(piece & 8 == 0 <==> piece < 8) by (bit_vector)
        requires
            piece < 16,
    ;
}

impl View for Board {
    type V = Seq<Option<int>>;

    /// The variant that stands on each of the 64 squares, if any.
    open spec fn view(&self) -> Seq<Option<int>> {
        Seq::new(
            64,
            |s: int|
                if bit(self.occ, s) {
                    Some(piece_variant(packed_piece(self.pcs@, count_below(self.occ, s) as int)))
                } else {
                    None
                },
        )
    }
}

impl Board {
    /// Whether the board holds at most 32 pieces, each of one of the six kinds.
    pub open spec fn valid(&self) -> bool {
        &&& count(self.occ) <= 32
        &&& forall|k: int|
            0 <= k < count(self.occ) ==> (#[trigger] packed_piece(self.pcs@, k)) % 8 < 6
    }

    /// A square of the 64 has a piece exactly if its bit is set. The piece is the one
    /// packed at the place that the square has among those with a piece.
    pub proof fn lemma_view(&self, s: int)
        requires
            0 <= s < 64,
        ensures
            self@.len() == 64,
            self@[s] is Some <==> (self.occ >> (s as u64)) & 1 == 1,
            (self.occ >> (s as u64)) & 1 == 1 ==> self@[s] == Some(
                piece_variant(packed_piece(self.pcs@, count_below(self.occ, s) as int)),
            ),
    {
    }

    /// Tells whether the board holds at most 32 pieces, each of one of the six kinds.
    pub fn is_valid(&self) -> (b: bool)
        ensures
            b == self.valid(),
            b == {
                &&& count_below(self.occ, 64) <= 32
                &&& forall|k: int|
                    0 <= k < count_below(self.occ, 64) ==> (#[trigger] packed_piece(self.pcs@, k))
                        % 8 < 6
            },
    {
        let mut bb: u64 = self.occ;
        let mut k: usize = 0;
        let ghost mut next: int = 0;
        while bb != 0
            invariant
                0 <= next <= 64,
                k <= 32,
                k == count_below(self.occ, next),
                forall|s: int| #[trigger] bit(bb, s) <==> next <= s && bit(self.occ, s),
                forall|j: int| 0 <= j < k ==> (#[trigger] packed_piece(self.pcs@, j)) % 8 < 6,
            decreases bb,
        {
            let (s, rest) = pop_lowest(bb);
            proof {
                assert forall|q: int| next <= q < s implies !#[trigger] bit(self.occ, q) by {
                    assert(!bit(bb, q));
                }
                lemma_count_below_stretch(self.occ, next, s as int);
                lemma_count_below_grows(self.occ, s as int, 64);
            }
            if k == 32 {
                return false;
            }
            let piece: u8 = if k % 2 == 0 {
                self.pcs[k / 2] % 16
            } else {
                self.pcs[k / 2] / 16
            };
            assert(piece == packed_piece(self.pcs@, k as int));
            if piece % 8 >= 6 {
                return false;
            }
            k = k + 1;
            bb = rest;
            proof {
                next = s + 1;
            }
        }
        proof {
            lemma_nonzero(bb);
            assert forall|q: int| next <= q < 64 implies !#[trigger] bit(self.occ, q) by {
                assert(!bit(bb, q));
            }
            lemma_count_below_stretch(self.occ, next, 64);
        }
        true
    }

    /// The square of our king.
    pub fn our_ksq(&self) -> (s: u8)
        ensures
            s == self.ksq,
    {
        self.ksq
    }

    /// The square of their king, seen from their side.
    pub fn opp_ksq(&self) -> (s: u8)
        ensures
            s == self.opp_ksq,
    {
        self.opp_ksq
    }
}

/// Walks a `bulletformat::ChessBoard` with the given squares and pieces by its
/// `IntoIterator`, and collects what that yields: for each occupied square in
/// ascending order, the piece packed at its place, and the square. The walk reads
/// past the packed pieces, and panics, where more than 32 squares are occupied.
#[verifier::external_body]
fn board_pieces(occ: u64, pcs: [u8; 16]) -> (pieces: Vec<(u8, u8)>)
    requires
        count(occ) <= 32,
    ensures
        pieces@.len() == count(occ),
        forall|k: int|
            #![trigger pieces@[k]]
            0 <= k < pieces@.len() ==> {
                &&& pieces@[k].0 == packed_piece(pcs@, k)
                &&& bit(occ, pieces@[k].1 as int)
                &&& count_below(occ, pieces@[k].1 as int) == k
            },
{
    let board = bulletformat::ChessBoard { occ, pcs, ..Default::default() };
    board.into_iter().collect()
}

/// Whether a piece of colour `c` (0 ours, 1 theirs) stands on `s`.
pub open spec fn has_colour(pos: Seq<Option<int>>, c: int, s: int) -> bool {
    0 <= s < 64 && (pos[s] matches Some(v) && (v < 6 <==> c == 0))
}

/// Whether a piece of kind `pt` stands on `s`.
pub open spec fn has_kind(pos: Seq<Option<int>>, pt: int, s: int) -> bool {
    0 <= s < 64 && (pos[s] matches Some(v) && v % 6 == pt)
}

/// The squares of each colour, and the squares of each kind of piece.
pub fn expand_board(pos: Board) -> (r: ([u64; 2], [u64; 6]))
    requires
        pos.valid(),
    ensures
        forall|c: int, s: int|
            0 <= c < 2 ==> (#[trigger] bit(r.0@[c], s) <==> has_colour(pos@, c, s)),
        forall|pt: int, s: int|
            0 <= pt < 6 ==> (#[trigger] bit(r.1@[pt], s) <==> has_kind(pos@, pt, s)),
        forall|s: int|
            #![trigger bit(r.0@[0], s)]
            0 <= s < 64 ==> (bit(r.0@[0], s) <==> pos@[s] is Some && pos@[s]->0 < 6),
        forall|s: int|
            #![trigger bit(r.0@[1], s)]
            0 <= s < 64 ==> (bit(r.0@[1], s) <==> pos@[s] is Some && pos@[s]->0 >= 6),
        forall|pt: int, s: int|
            #![trigger bit(r.1@[pt], s)]
            0 <= pt < 6 && 0 <= s < 64 ==> (bit(r.1@[pt], s) <==> pos@[s] is Some && pos@[s]->0 % 6
                == pt),
{
    let mut color_bb: [u64; 2] = [0u64; 2];
    let mut piece_bb: [u64; 6] = [0u64; 6];
    let pieces: Vec<(u8, u8)> = board_pieces(pos.occ, pos.pcs);
    let mut i: usize = 0;
    proof {
        lemma_empty();
    }
    while i < pieces.len()
        invariant
            pos.valid(),
            i <= pieces@.len(),
            pieces@.len() == count(pos.occ),
            forall|k: int|
                #![trigger pieces@[k]]
                0 <= k < pieces@.len() ==> {
                    &&& pieces@[k].0 == packed_piece(pos.pcs@, k)
                    &&& bit(pos.occ, pieces@[k].1 as int)
                    &&& count_below(pos.occ, pieces@[k].1 as int) == k
                },
            forall|c: int, s: int|
                0 <= c < 2 ==> (#[trigger] bit(color_bb@[c], s) <==> count_below(pos.occ, s) < i
                    && has_colour(pos@, c, s)),
            forall|pt: int, s: int|
                0 <= pt < 6 ==> (#[trigger] bit(piece_bb@[pt], s) <==> count_below(pos.occ, s) < i
                    && has_kind(pos@, pt, s)),
        decreases pieces@.len() - i,
    {
        let (piece, square): (u8, u8) = pieces[i];
        assert(piece < 16 && piece % 8 < 6);
        assert(piece & 8 > 0 <==> piece >= 8) by (bit_vector)
            requires
                piece < 16,
        ;
        assert(piece & 7 == piece % 8) by (bit_vector);
        let c: usize = if piece & 8 > 0 {
            1
        } else {
            0
        };
        let pt: usize = (piece & 7) as usize;
        let one: u64 = single(square);
        let ghost colors_before = color_bb@;
        let ghost kinds_before = piece_bb@;
        color_bb[c] = color_bb[c] | one;
        piece_bb[pt] = piece_bb[pt] | one;
        proof {
            lemma_union(colors_before[c as int], one);
            lemma_union(kinds_before[pt as int], one);
            assert(pos@[square as int] == Some(piece_variant(piece)));
            assert forall|s: int| bit(pos.occ, s) && s != square implies #[trigger] count_below(
                pos.occ,
                s,
            ) != i by {
                if s < square {
                    lemma_count_below_grows(pos.occ, s, square as int);
                } else {
                    lemma_count_below_grows(pos.occ, square as int, s);
                }
            }
        }
        i = i + 1;
    }
    proof {
        assert forall|s: int| bit(pos.occ, s) implies #[trigger] count_below(pos.occ, s)
            < pieces@.len() by {
            lemma_count_below_grows(pos.occ, s, 64);
        }
    }
    (color_bb, piece_bb)
}

} // verus!
