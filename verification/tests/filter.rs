use erebus_inputs::filter::{filter, Entry, MoveType};
use sfbinpack::chess::coords::Square;
use sfbinpack::chess::piece::Piece;
use sfbinpack::chess::position::Position;

fn entry(fen: &str) -> Entry {
    let pos = Position::from_fen(&format!("{fen} - - 0 1")).unwrap();
    let mut pieces = Vec::new();
    for s in 0..64 {
        let piece = pos.piece_at(Square::new(s));
        if piece != Piece::none() {
            pieces.push((piece.id(), s as u8));
        }
    }
    Entry {
        ply: 16,
        score: 0,
        black_to_move: fen.ends_with('b'),
        pieces,
        move_type: MoveType::Normal,
        move_to: 30,
    }
}

const QUIET: &str = "4k3/8/8/3p4/4P3/8/8/R3K3";

#[test]
fn quiet_entries_are_kept() {
    assert!(entry(&format!("{QUIET} w")).is_valid());
    assert!(filter(&entry(&format!("{QUIET} w"))));
    assert!(filter(&entry(&format!("{QUIET} b"))));
    assert!(filter(&Entry { ply: 300, score: -12_000, ..entry(&format!("{QUIET} w")) }));
    assert!(filter(&Entry { score: 12_000, ..entry(&format!("{QUIET} w")) }));
}

#[test]
fn each_condition_rejects() {
    let quiet = || entry(&format!("{QUIET} w"));
    assert!(!filter(&Entry { ply: 15, ..quiet() }));
    assert!(!filter(&Entry { score: 12_001, ..quiet() }));
    assert!(!filter(&Entry { score: -12_001, ..quiet() }));
    assert!(!filter(&Entry { score: i16::MIN, ..quiet() }));
    assert!(!filter(&Entry { move_type: MoveType::Promotion, ..quiet() }));
    assert!(!filter(&Entry { move_type: MoveType::Castle, ..quiet() }));
    assert!(!filter(&Entry { move_type: MoveType::EnPassant, ..quiet() }));
    assert!(!filter(&Entry { move_to: 35, ..quiet() }));
    assert!(!filter(&Entry { move_to: 0, ..quiet() }));
}

#[test]
fn checks_by_every_kind_of_piece() {
    for fen in [
        "4k3/8/8/8/8/8/3p4/4K3 w",
        "4k3/3P4/8/8/8/8/8/4K3 b",
        "4k3/8/8/8/8/3n4/8/4K3 w",
        "4k3/8/8/8/7b/8/8/4K3 w",
        "4k3/8/8/8/8/8/8/r3K3 w",
        "4k3/8/8/8/4q3/8/8/4K3 w",
        "4k3/8/8/8/8/8/3k4/4K3 w",
    ] {
        assert!(!filter(&entry(fen)), "{fen}");
    }
    for fen in [
        "4k3/8/8/8/8/8/8/3pK3 w",
        "4k3/8/8/8/8/8/3P4/4K3 b",
        "4k3/8/8/8/8/2n5/8/4K3 w",
        "4k3/8/8/8/7b/8/5P2/4K3 w",
        "4k3/8/8/8/8/8/8/rR2K3 w",
        "4k3/8/8/4r3/4q3/4N3/8/4K3 w",
        "4k3/8/8/8/4R3/8/8/4K3 w",
        "4k3/8/8/8/8/3k4/8/4K3 w",
    ] {
        assert!(filter(&entry(fen)), "{fen}");
    }
}

#[test]
fn entries_are_checked() {
    let quiet = || entry(&format!("{QUIET} w"));
    assert!(!Entry { pieces: vec![(12, 0)], ..quiet() }.is_valid());
    assert!(!Entry { pieces: vec![(10, 64)], ..quiet() }.is_valid());
    assert!(!Entry { pieces: vec![(10, 1), (0, 1)], ..quiet() }.is_valid());
    assert!(!Entry { pieces: vec![(11, 1)], ..quiet() }.is_valid());
    assert!(Entry { pieces: vec![(11, 1)], black_to_move: true, ..quiet() }.is_valid());
    assert!(Entry { pieces: vec![], ply: 3, ..quiet() }.is_valid());
    assert!(!Entry { move_to: 64, ..quiet() }.is_valid());
    assert!(Entry { move_to: 64, score: 20_000, ..quiet() }.is_valid());
    let checked = Entry { move_to: 64, ..entry("4k3/8/8/8/8/8/8/r3K3 w") };
    assert!(checked.is_valid());
    assert!(!filter(&checked));
    assert!(!filter(&Entry { pieces: vec![], move_to: 64, ply: 3, ..quiet() }));
}
