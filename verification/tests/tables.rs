use erebus_inputs::attacks::raw_attacks_bb;
use erebus_inputs::tables::ThreatTables;

#[test]
fn block_size_is_the_number_of_threats() {
    let tables = ThreatTables::build();
    assert_eq!(tables.block_size, 90_384);
    assert_eq!(tables.threat_count(), 90_384);
}

#[test]
fn ordinals_count_reachable_squares() {
    let tables = ThreatTables::build();
    assert_eq!(tables.ordinal(1, 0, 10), 0);
    assert_eq!(tables.ordinal(1, 0, 17), 1);
    assert_eq!(tables.ordinal(4, 27, 63), 26);
    assert_eq!(tables.ordinal(0, 8, 17), 0);
}

#[test]
fn known_indices() {
    let tables = ThreatTables::build();
    assert_eq!(tables.local_index(0, 8, 0, 17), 168);
    assert_eq!(tables.local_index(1, 0, 6, 10), 1_188);
    assert_eq!(tables.local_index(4, 27, 11, 63), 30_263);
    assert_eq!(tables.local_index(10, 27, 0, 0), 75_132);
    assert_eq!(tables.local_index(11, 63, 11, 62), 90_383);
}

#[test]
fn every_index_is_used_once() {
    let tables = ThreatTables::build();
    let mut seen = vec![false; 90_384];
    for attacker in 0..12 {
        for from in 0..64u8 {
            let reached = raw_attacks_bb(attacker, from, 0);
            for to in 0..64u8 {
                if reached >> to & 1 == 1 {
                    for victim in 0..12 {
                        let index = tables.local_index(attacker, from, victim, to);
                        assert!(!seen[index]);
                        seen[index] = true;
                    }
                }
            }
        }
    }
    assert!(seen.iter().all(|&s| s));
}

#[test]
fn indices_nest_by_attacker_square_then_victim() {
    let tables = ThreatTables::build();
    assert_eq!(tables.local_index(1, 0, 0, 10), 1_176);
    assert_eq!(tables.local_index(1, 0, 0, 17), 1_177);
    assert_eq!(tables.local_index(1, 0, 1, 10), 1_178);
    assert_eq!(tables.local_index(1, 0, 11, 17), 1_199);
    assert_eq!(tables.local_index(1, 1, 0, 11), 1_200);

    let mut next = 0;
    for attacker in 0..12 {
        for from in 0..64u8 {
            let reached = raw_attacks_bb(attacker, from, 0);
            for victim in 0..12 {
                for to in 0..64u8 {
                    if reached >> to & 1 == 1 {
                        assert_eq!(tables.local_index(attacker, from, victim, to), next);
                        next += 1;
                    }
                }
            }
        }
    }
    assert_eq!(next, tables.block_size);
}
