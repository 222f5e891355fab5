use erebus_inputs::attacks::{
    raw_attacks_bb, variant_index, BISHOP, KING, KNIGHT, PAWN, QUEEN, ROOK,
};
use erebus_inputs::bits::{contains, pop_lowest, single};
use erebus_inputs::geometry::{flip_sq, ray_bb, sq_file, sq_rank, try_sq};

#[test]
fn bits_are_squares() {
    assert_eq!(single(0), 1);
    assert_eq!(single(63), 1 << 63);
    assert!(contains(0b1000, 3));
    assert!(!contains(0b1000, 2));
    assert_eq!(pop_lowest(0b1011000), (3, 0b1010000));
    assert_eq!(pop_lowest(1 << 63), (63, 0));
}

#[test]
fn squares_have_files_and_ranks() {
    assert_eq!((sq_file(0), sq_rank(0)), (0, 0));
    assert_eq!((sq_file(27), sq_rank(27)), (3, 3));
    assert_eq!((sq_file(63), sq_rank(63)), (7, 7));
    assert_eq!(try_sq(3, 3), Some(27));
    assert_eq!(try_sq(7, 0), Some(7));
    assert_eq!(try_sq(8, 0), None);
    assert_eq!(try_sq(-1, 4), None);
    assert_eq!(try_sq(4, 8), None);
    assert_eq!(try_sq(4, -1), None);
    assert_eq!(flip_sq(0), 56);
    assert_eq!(flip_sq(27), 35);
    for s in 0..64u8 {
        assert_eq!(flip_sq(s), s ^ 56);
    }
}

#[test]
fn rays_stop_at_the_first_piece() {
    assert_eq!(ray_bb(0, (1, 1), 1 << 27), 0x8040200);
    assert_eq!(ray_bb(0, (1, 0), 0), 0xfe);
    assert_eq!(ray_bb(0, (-1, 0), 0), 0);
    assert_eq!(ray_bb(63, (0, -1), 1 << 55), 1 << 55);
    assert_eq!(ray_bb(5, (0, 0), 1 << 5), 1 << 5);
    assert_eq!(ray_bb(64, (0, -1), 1 << 40), 1 << 40 | 1 << 48 | 1 << 56);
    assert_eq!(ray_bb(0, (2, 3), 0), 1 << 26 | 1 << 52);
}

#[test]
fn pieces_attack_as_they_move() {
    assert_eq!(raw_attacks_bb(PAWN, 8, 0), 0x20000);
    assert_eq!(raw_attacks_bb(PAWN + 6, 8, 0), 0x2);
    assert_eq!(raw_attacks_bb(PAWN, 60, 0), 0);
    assert_eq!(raw_attacks_bb(PAWN + 6, 4, 0), 0);
    assert_eq!(raw_attacks_bb(KNIGHT, 0, 0), 1 << 10 | 1 << 17);
    assert_eq!(raw_attacks_bb(KING, 7, 0), 0xc040);
    assert_eq!(raw_attacks_bb(BISHOP, 27, 0), 0x8041221400142241);
    assert_eq!(raw_attacks_bb(ROOK, 0, 1 << 24), 0x10101fe);
    assert_eq!(raw_attacks_bb(QUEEN, 27, 1 << 45 | 1 << 11), 0x8092a1cf71c2a41);
    assert_eq!(raw_attacks_bb(QUEEN + 6, 27, 1 << 45 | 1 << 11), 0x8092a1cf71c2a41);
}

#[test]
fn blockers_only_remove_attacks() {
    let mut occ: u64 = 0x9e3779b97f4a7c15;
    for variant in 0..12 {
        for sq in 0..64 {
            occ = occ.rotate_left(7).wrapping_mul(0xd1342543de82ef95).wrapping_add(1);
            let all = raw_attacks_bb(variant, sq, 0);
            let some = raw_attacks_bb(variant, sq, occ);
            assert_eq!(some & !all, 0);
            assert_eq!(raw_attacks_bb(variant, sq, occ & (occ >> 3)) & some, some);
        }
    }
}

#[test]
fn attacks_mirror() {
    let mut occ: u64 = 0x9e3779b97f4a7c15;
    for variant in 0..12usize {
        for sq in 0..64u8 {
            occ = occ.rotate_left(7).wrapping_mul(0xd1342543de82ef95).wrapping_add(1);
            let here = raw_attacks_bb(variant, sq, occ);
            let there = raw_attacks_bb((variant + 6) % 12, sq ^ 56, occ.swap_bytes());
            assert_eq!(here.swap_bytes(), there);
        }
    }
}

#[test]
fn variants_are_side_and_kind() {
    assert_eq!(variant_index(true, KING), 5);
    assert_eq!(variant_index(false, PAWN), 6);
    assert_eq!(variant_index(false, KING), 11);
}
