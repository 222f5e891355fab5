//! Which positions are trained on.

use crate::attacks::attacks;
use vstd::prelude::*;

verus! {

/// The kinds of moves.
#[derive(Clone, Copy, Debug, PartialEq, Eq, Structural)]
pub enum MoveType {
    Normal,
    Promotion,
    Castle,
    EnPassant,
}

/// A position with the move that was played in it.
#[derive(Debug)]
pub struct Entry {
    /// The ply of the game.
    pub ply: u16,
    /// The score of the position.
    pub score: i16,
    /// Whether Black is to move.
    pub black_to_move: bool,
    /// The pieces and their squares. A piece is twice its kind, plus one if it is
    /// black.
    pub pieces: Vec<(u8, u8)>,
    /// The kind of the move.
    pub move_type: MoveType,
    /// The square that the move leads to.
    pub move_to: u8,
}

/// The first ply that is trained on.
pub const MIN_PLY: u16 = 16;

/// The largest score, of either side, that is trained on.
pub const MAX_SCORE: i16 = 12_000;

/// Whether a piece is black.
pub open spec fn is_black(piece: u8) -> bool {
    piece % 2 == 1
}

/// The attacker variant of a piece, White's pieces being ours.
pub open spec fn attacker_variant(piece: u8) -> int {
    piece / 2 + if is_black(piece) {
        6int
    } else {
        0
    }
}

/// The king of a side.
pub open spec fn king(black: bool) -> u8 {
    if black {
        11
    } else {
        10
    }
}

/// Whether a piece stands on the square `s`.
pub open spec fn stands_on(pieces: Seq<(u8, u8)>, s: int) -> bool {
    exists|i: int| 0 <= i < pieces.len() && (#[trigger] pieces[i]).1 == s
}

/// The squares with a piece.
pub open spec fn occupied(pieces: Seq<(u8, u8)>) -> Set<int> {
    Set::new(|s: int| stands_on(pieces, s))
}

/// Whether the pieces are pieces, each on a square of its own.
pub open spec fn is_placement(pieces: Seq<(u8, u8)>) -> bool {
    &&& forall|i: int|
        0 <= i < pieces.len() ==> (#[trigger] pieces[i]).0 < 12 && pieces[i].1 < 64
    &&& forall|i: int, j: int|
        0 <= i < j < pieces.len() ==> (#[trigger] pieces[i]).1 != (#[trigger] pieces[j]).1
}

/// Whether a side has a king.
pub open spec fn has_king(pieces: Seq<(u8, u8)>, black: bool) -> bool {
    exists|i: int| 0 <= i < pieces.len() && (#[trigger] pieces[i]).0 == king(black)
}

/// Whether a king of the side, with none on a lower square, stands on `s`.
pub open spec fn king_on(pieces: Seq<(u8, u8)>, black: bool, s: int) -> bool {
    &&& exists|i: int| 0 <= i < pieces.len() && #[trigger] pieces[i] == (king(black), s as u8)
    &&& 0 <= s < 64
    &&& forall|i: int|
        0 <= i < pieces.len() && (#[trigger] pieces[i]).0 == king(black) ==> s <= pieces[i].1
}

/// Whether a piece of the other side attacks the king of a side.
pub open spec fn in_check(pieces: Seq<(u8, u8)>, black: bool) -> bool {
    exists|i: int, s: int|
        #![trigger pieces[i], king_on(pieces, black, s)]
        {
            &&& 0 <= i < pieces.len()
            &&& is_black(pieces[i].0) != black
            &&& king_on(pieces, black, s)
            &&& attacks(attacker_variant(pieces[i].0), pieces[i].1 as int, s, occupied(pieces))
        }
}

/// A side is in check exactly if a piece of the other side attacks the square of its
/// king, the king on the lowest square if there are several, with every piece in the
/// way. Kings are the pieces 10 and 11, odd pieces are black, and half a piece is its
/// kind.
pub proof fn lemma_in_check(pieces: Seq<(u8, u8)>, black: bool)
    ensures
        in_check(pieces, black) <==> exists|i: int, k: int|
            #![trigger pieces[i], pieces[k]]
            {
                &&& 0 <= i < pieces.len()
                &&& 0 <= k < pieces.len()
                &&& pieces[k].0 == (if black {
                    11u8
                } else {
                    10u8
                })
                &&& pieces[k].1 < 64
                &&& forall|j: int|
                    0 <= j < pieces.len() && (#[trigger] pieces[j]).0 == pieces[k].0
                        ==> pieces[k].1 <= pieces[j].1
                &&& (pieces[i].0 % 2 == 1) != black
                &&& attacks(
                    pieces[i].0 / 2 + 6 * (pieces[i].0 % 2),
                    pieces[i].1 as int,
                    pieces[k].1 as int,
                    Set::new(
                        |s: int|
                            exists|j: int| 0 <= j < pieces.len() && (#[trigger] pieces[j]).1 == s,
                    ),
                )
            },
{
    let squares = Set::new(
        |s: int| exists|j: int| 0 <= j < pieces.len() && (#[trigger] pieces[j]).1 == s,
    );
    assert(squares =~= occupied(pieces));
    if in_check(pieces, black) {
        let (i, s) = choose|i: int, s: int|
            #![trigger pieces[i], king_on(pieces, black, s)]
            {
                &&& 0 <= i < pieces.len()
                &&& is_black(pieces[i].0) != black
                &&& king_on(pieces, black, s)
                &&& attacks(attacker_variant(pieces[i].0), pieces[i].1 as int, s, occupied(pieces))
            };
        let k = choose|k: int|
            0 <= k < pieces.len() && #[trigger] pieces[k] == (king(black), s as u8);
        assert(pieces[i].0 / 2 + 6 * (pieces[i].0 % 2) == attacker_variant(pieces[i].0));
        assert(pieces[k].1 == s);
    }
    assert forall|i: int, k: int|
        #![trigger pieces[i], pieces[k]]
        {
            &&& 0 <= i < pieces.len()
            &&& 0 <= k < pieces.len()
            &&& pieces[k].0 == king(black)
            &&& pieces[k].1 < 64
            &&& forall|j: int|
                0 <= j < pieces.len() && (#[trigger] pieces[j]).0 == pieces[k].0 ==> pieces[k].1
                    <= pieces[j].1
            &&& (pieces[i].0 % 2 == 1) != black
            &&& attacks(
                pieces[i].0 / 2 + 6 * (pieces[i].0 % 2),
                pieces[i].1 as int,
                pieces[k].1 as int,
                squares,
            )
        } implies in_check(pieces, black) by {
        let s = pieces[k].1 as int;
        assert(pieces[k] == (king(black), s as u8));
        assert(king_on(pieces, black, s));
        assert(pieces[i].0 / 2 + 6 * (pieces[i].0 % 2) == attacker_variant(pieces[i].0));
    }
}

/// Places the pieces on an empty `sfbinpack` position and asks that for
/// `Position::is_checked`: whether the side's king, the one on the lowest square if
/// there are several, is attacked by a piece of the other side. The position needs
/// that king, real pieces and squares, and no two pieces on one square.
#[verifier::external_body]
fn is_checked(pieces: &Vec<(u8, u8)>, black: bool) -> (b: bool)
    requires
        is_placement(pieces@),
        has_king(pieces@, black),
    ensures
        b == in_check(pieces@, black),
{
    let mut pos = sfbinpack::chess::position::Position::empty();
    for (piece, square) in pieces.iter() {
        pos.place(
            sfbinpack::chess::piece::Piece::from_id(*piece as i32),
            sfbinpack::chess::coords::Square::new(*square as u32),
        );
    }
    pos.is_checked(sfbinpack::chess::color::Color::from_ordinal(black as u8))
}

/// Whether no piece stands on the square `s`.
fn is_empty_square(pieces: &Vec<(u8, u8)>, s: u8) -> (b: bool)
    ensures
        b == !stands_on(pieces@, s as int),
{
    let mut i: usize = 0;
    while i < pieces.len()
        invariant
            i <= pieces@.len(),
            forall|k: int| 0 <= k < i ==> (#[trigger] pieces@[k]).1 != s,
        decreases pieces@.len() - i,
    {
        if pieces[i].1 == s {
            return false;
        }
        i = i + 1;
    }
    true
}

impl Entry {
    /// Whether the score is small enough to be trained on.
    pub open spec fn score_in_range(&self) -> bool {
        -MAX_SCORE <= self.score <= MAX_SCORE
    }

    /// Whether the entry is one that can be judged: the pieces are placed, the side
    /// to move has a king once its check matters, and the move leads to a square
    /// once its target matters.
    pub open spec fn valid(&self) -> bool {
        &&& is_placement(self.pieces@)
        &&& self.ply >= MIN_PLY ==> has_king(self.pieces@, self.black_to_move)
        &&& self.ply >= MIN_PLY && !in_check(self.pieces@, self.black_to_move)
            && self.score_in_range() && self.move_type == MoveType::Normal ==> self.move_to < 64
    }

    /// The range of the scores is that of the absolute values up to 12000.
    pub proof fn lemma_score_range(&self)
        ensures
            self.score_in_range() <==> (if self.score < 0 {
                -self.score
            } else {
                self.score as int
            }) <= 12000,
    {
    }

    /// Tells whether the entry is one that can be judged.
    pub fn is_valid(&self) -> (b: bool)
        ensures
            b == self.valid(),
            b == {
                &&& forall|i: int|
                    0 <= i < self.pieces@.len() ==> (#[trigger] self.pieces@[i]).0 < 12
                        && self.pieces@[i].1 < 64
                &&& forall|i: int, j: int|
                    0 <= i < j < self.pieces@.len() ==> (#[trigger] self.pieces@[i]).1 != (
                    #[trigger] self.pieces@[j]).1
                &&& self.ply < 16 || exists|i: int|
                    0 <= i < self.pieces@.len() && (#[trigger] self.pieces@[i]).0 == (
                    if self.black_to_move {
                        11u8
                    } else {
                        10u8
                    })
                &&& self.move_to < 64 || self.ply < 16 || in_check(
                    self.pieces@,
                    self.black_to_move,
                ) || self.score < -12000 || self.score > 12000 || self.move_type
                    != MoveType::Normal
            },
    {
        let quiet: bool = self.ply >= MIN_PLY && -MAX_SCORE <= self.score && self.score
            <= MAX_SCORE && self.move_type == MoveType::Normal;
        let king_piece: u8 = if self.black_to_move {
            11
        } else {
            10
        };
        let mut king_found: bool = false;
        let mut j: usize = 0;
        while j < self.pieces.len()
            invariant
                j <= self.pieces@.len(),
                king_piece == king(self.black_to_move),
                king_found ==> has_king(self.pieces@, self.black_to_move),
                !king_found ==> forall|k: int|
                    0 <= k < j ==> (#[trigger] self.pieces@[k]).0 != king_piece,
                forall|k: int|
                    0 <= k < j ==> (#[trigger] self.pieces@[k]).0 < 12 && self.pieces@[k].1 < 64,
                forall|i: int, k: int|
                    0 <= i < k < j ==> (#[trigger] self.pieces@[i]).1 != (
                    #[trigger] self.pieces@[k]).1,
            decreases self.pieces@.len() - j,
        {
            let (piece, square): (u8, u8) = self.pieces[j];
            if piece >= 12 || square >= 64 {
                assert(!(self.pieces@[j as int].0 < 12 && self.pieces@[j as int].1 < 64));
                return false;
            }
            let mut i: usize = 0;
            while i < j
                invariant
                    i <= j < self.pieces@.len(),
                    square == self.pieces@[j as int].1,
                    forall|k: int| 0 <= k < i ==> (#[trigger] self.pieces@[k]).1 != square,
                decreases j - i,
            {
                if self.pieces[i].1 == square {
                    assert(self.pieces@[i as int].1 == self.pieces@[j as int].1);
                    return false;
                }
                i = i + 1;
            }
            if piece == king_piece {
                assert(self.pieces@[j as int].0 == king(self.black_to_move));
                king_found = true;
            }
            j = j + 1;
        }
        (self.ply < MIN_PLY || king_found) && (self.move_to < 64 || !quiet || is_checked(
            &self.pieces,
            self.black_to_move,
        ))
    }
}

/// Whether an entry is trained on: late enough, not in check, not decided, and
/// played on with a quiet move.
pub fn filter(entry: &Entry) -> (keep: bool)
    requires
        entry.valid(),
    ensures
        keep == {
            &&& entry.ply >= MIN_PLY
            &&& !in_check(entry.pieces@, entry.black_to_move)
            &&& entry.score_in_range()
            &&& entry.move_type == MoveType::Normal
            &&& !stands_on(entry.pieces@, entry.move_to as int)
        },
        keep == {
            &&& entry.ply >= 16
            &&& !in_check(entry.pieces@, entry.black_to_move)
            &&& -12000 <= entry.score
            &&& entry.score <= 12000
            &&& entry.move_type == MoveType::Normal
            &&& forall|i: int|
                0 <= i < entry.pieces@.len() ==> (#[trigger] entry.pieces@[i]).1 != entry.move_to
        },
{
    entry.ply >= MIN_PLY && !is_checked(&entry.pieces, entry.black_to_move) && -MAX_SCORE
        <= entry.score && entry.score <= MAX_SCORE && entry.move_type == MoveType::Normal
        && is_empty_square(&entry.pieces, entry.move_to)
}

} // verus!
