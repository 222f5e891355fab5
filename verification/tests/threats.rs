use bulletformat::ChessBoard;
use erebus_inputs::board::{expand_board, Board};
use erebus_inputs::tables::ThreatTables;
use erebus_inputs::threats::emit_threat_pairs;

fn board(fen: &str) -> Board {
    let pos: ChessBoard = format!("{fen} - - 0 1 | 0 | 0.5").parse().unwrap();
    Board { occ: pos.occ, pcs: pos.pcs, ksq: pos.ksq, opp_ksq: pos.opp_ksq }
}

const START: &str = "rnbqkbnr/pppppppp/8/8/8/8/PPPPPPPP/RNBQKBNR";
const SPANISH: &str = "r1bqkb1r/pppp1ppp/2n2n2/1B2p3/4P3/5N2/PPPP1PPP/RNBQK2R";
const FEW: &str = "4k3/8/8/3p4/4P3/8/8/R3K3";

#[test]
fn boards_unpack() {
    let (colors, kinds) = expand_board(board(&format!("{START} w")));
    assert_eq!(colors, [0xffff, 0xffff << 48]);
    assert_eq!(kinds[0], 0x00ff_0000_0000_ff00);
    assert_eq!(kinds[1], 0x4200_0000_0000_0042);
    assert_eq!(kinds[2], 0x2400_0000_0000_0024);
    assert_eq!(kinds[3], 0x8100_0000_0000_0081);
    assert_eq!(kinds[4], 0x0800_0000_0000_0008);
    assert_eq!(kinds[5], 0x1000_0000_0000_0010);

    let (colors, kinds) = expand_board(board(&format!("{FEW} w")));
    assert_eq!(colors, [1 | 1 << 4 | 1 << 28, 1 << 35 | 1 << 60]);
    assert_eq!(kinds, [1 << 28 | 1 << 35, 0, 0, 1, 0, 1 << 4 | 1 << 60]);
}

#[test]
fn boards_are_checked() {
    assert!(board(&format!("{START} w")).is_valid());
    let empty = Board { occ: 0, pcs: [0xff; 16], ksq: 0, opp_ksq: 0 };
    assert!(empty.is_valid());
    assert_eq!(expand_board(empty), ([0; 2], [0; 6]));
    let full = Board { occ: 0xffff_ffff, pcs: [0xd5; 16], ksq: 0, opp_ksq: 0 };
    assert!(full.is_valid());
    assert!(!Board { occ: 0x1_ffff_ffff, ..full }.is_valid());
    assert!(!Board { occ: 1, pcs: [0x06; 16], ..full }.is_valid());
    assert!(!Board { occ: 3, pcs: [0x70; 16], ..full }.is_valid());
    assert!(Board { occ: 1, pcs: [0x70; 16], ..full }.is_valid());
}

#[test]
fn king_squares() {
    let pos = board(&format!("{FEW} w"));
    assert_eq!((pos.our_ksq(), pos.opp_ksq()), (4, 4));
    let pos = board("8/8/3k4/8/8/8/1K6/8 w");
    assert_eq!((pos.our_ksq(), pos.opp_ksq()), (9, 19));
}

#[test]
fn threats_of_a_few_pieces() {
    let tables = ThreatTables::build();
    assert_eq!(
        emit_threat_pairs(&board(&format!("{FEW} w")), &tables),
        vec![(600, 45_780), (12_001, 66_692), (45_757, 577)]
    );
    assert_eq!(
        emit_threat_pairs(&board(&format!("{FEW} b")), &tables),
        vec![(577, 45_757), (45_780, 600), (66_692, 12_001)]
    );
    let empty = Board { occ: 0, pcs: [0; 16], ksq: 0, opp_ksq: 0 };
    assert_eq!(emit_threat_pairs(&empty, &tables), vec![]);
}

#[test]
fn threats_of_whole_positions() {
    let tables = ThreatTables::build();
    let pairs = emit_threat_pairs(&board(&format!("{START} w")), &tables);
    assert_eq!(pairs.len(), 40);
    assert_eq!(
        pairs[..4],
        [(1_200, 50_132), (1_428, 50_360), (5_376, 56_663), (5_377, 56_664)]
    );
    assert_eq!(pairs[39], (90_212, 40_379));
    assert_eq!(pairs.iter().map(|p| p.0).sum::<usize>(), 1_862_792);
    assert_eq!(pairs.iter().map(|p| p.1).sum::<usize>(), 1_862_792);

    let pairs = emit_threat_pairs(&board(&format!("{SPANISH} w")), &tables);
    assert_eq!(pairs.len(), 47);
    assert_eq!(pairs[0], (302, 46_178));
    assert_eq!(pairs.iter().map(|p| p.0).sum::<usize>(), 2_024_185);
    assert_eq!(pairs.iter().map(|p| p.1).sum::<usize>(), 1_783_078);
}

#[test]
fn mirrored_boards_have_exchanged_pairs() {
    let tables = ThreatTables::build();
    for fen in [START, SPANISH, FEW, "8/2q5/3k4/8/4N3/8/1K6/7B"] {
        let mut ours = emit_threat_pairs(&board(&format!("{fen} w")), &tables);
        let mut theirs: Vec<(usize, usize)> =
            emit_threat_pairs(&board(&format!("{fen} b")), &tables)
                .iter()
                .map(|&(stm, ntm)| (ntm, stm))
                .collect();
        ours.sort();
        theirs.sort();
        assert_eq!(ours, theirs);
        assert!(!ours.is_empty());
    }
}

#[test]
fn indices_are_distinct_and_in_range() {
    let tables = ThreatTables::build();
    for fen in [START, SPANISH, "q3k2q/8/8/8/8/8/8/Q3K2Q"] {
        let pairs = emit_threat_pairs(&board(&format!("{fen} w")), &tables);
        let mut first: Vec<usize> = pairs.iter().map(|p| p.0).collect();
        let mut second: Vec<usize> = pairs.iter().map(|p| p.1).collect();
        first.sort();
        first.dedup();
        second.sort();
        second.dedup();
        assert_eq!(first.len(), pairs.len());
        assert_eq!(second.len(), pairs.len());
        assert!(pairs.iter().all(|p| p.0 < tables.block_size && p.1 < tables.block_size));
    }
}
