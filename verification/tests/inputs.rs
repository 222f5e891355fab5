use bulletformat::ChessBoard;
use erebus_inputs::board::Board;
use erebus_inputs::inputs::{input_buckets_layout, PstPlusThreatInputs, COMBINED_INPUTS};

fn few() -> Board {
    let pos: ChessBoard = "4k3/8/8/3p4/4P3/8/8/R3K3 w - - 0 1 | 0 | 0.5".parse().unwrap();
    Board { occ: pos.occ, pcs: pos.pcs, ksq: pos.ksq, opp_ksq: pos.opp_ksq }
}

#[test]
fn buckets_by_king_square() {
    let layout = input_buckets_layout();
    assert_eq!(layout[..8], [0, 1, 2, 3, 3, 2, 1, 0]);
    assert_eq!(layout[8..16], [4, 5, 6, 7, 7, 6, 5, 4]);
    assert_eq!(layout[16..24], [8; 8]);
    assert_eq!(layout[24..], [9; 40]);
}

#[test]
fn sizes_and_names() {
    let inputs = PstPlusThreatInputs::new(input_buckets_layout(), 10);
    assert_eq!(COMBINED_INPUTS, 98_064);
    assert_eq!(inputs.num_inputs(), COMBINED_INPUTS);
    assert_eq!(inputs.max_active(), 160);
    assert_eq!(inputs.shorthand(), "768x10+threats90384");
    assert_eq!(
        inputs.description(),
        "King-bucketed PSQT + summed threat accumulator inputs"
    );
    let one = PstPlusThreatInputs::new([0; 64], 1);
    assert_eq!(one.num_inputs(), 91_152);
    assert_eq!(one.clone().shorthand(), "768x1+threats90384");
}

#[test]
fn features_are_bucketed_then_threats() {
    let inputs = PstPlusThreatInputs::new(input_buckets_layout(), 10);
    let pos = few();
    let features = inputs.map_features(&pos, &vec![(4, 388), (767, 0)]);
    assert_eq!(
        features,
        vec![
            (3 * 768 + 4, 3 * 768 + 388),
            (3 * 768 + 767, 3 * 768),
            (7_680 + 600, 7_680 + 45_780),
            (7_680 + 12_001, 7_680 + 66_692),
            (7_680 + 45_757, 7_680 + 577),
        ]
    );
    assert!(features.iter().all(|f| f.0 < inputs.num_inputs() && f.1 < inputs.num_inputs()));
}

#[test]
fn each_side_has_its_own_bucket() {
    let inputs = PstPlusThreatInputs::new(input_buckets_layout(), 10);
    let pos = Board { ksq: 9, opp_ksq: 60, ..few() };
    let features = inputs.map_features(&pos, &vec![(1, 2)]);
    assert_eq!(features[0], (5 * 768 + 1, 9 * 768 + 2));
    assert_eq!(features.len(), 4);
}
