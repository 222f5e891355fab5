use erebus_inputs::checkpoints::{find_latest_superbatch, read_checkpoint_number, resume_path};
use erebus_inputs::numbers::{decimal_string, parse_number};
use erebus_inputs::session::{
    estimate_pass, parse_passes, plan_session, positions_in_one_pass, total_planned_superbatches,
};

fn names(list: &[&str]) -> Vec<String> {
    list.iter().map(|s| s.to_string()).collect()
}

#[test]
fn numbers_are_read_like_std_reads_them() {
    for text in [
        "0", "7", "+7", "007", "18446744073709551615", "18446744073709551616", "", "+", "-0", "-1",
        "++1", " 1", "1 ", "1_000", "12a", "0x10", "99999999999999999999999", "٣",
        "184467440737095516150", "18446744073709551609",
    ] {
        assert_eq!(parse_number(text), text.parse::<usize>().ok(), "{text}");
    }
}

#[test]
fn numbers_are_written_like_std_writes_them() {
    for n in [0, 1, 9, 10, 42, 100, 90_384, 1_000_000_007, usize::MAX] {
        assert_eq!(decimal_string(n), n.to_string());
        assert_eq!(parse_number(&decimal_string(n)), Some(n));
    }
}

#[test]
fn checkpoint_names() {
    assert_eq!(read_checkpoint_number("erebus", "erebus-12"), Some(12));
    assert_eq!(read_checkpoint_number("erebus", "erebus-+12"), Some(12));
    assert_eq!(read_checkpoint_number("erebus", "erebus-"), None);
    assert_eq!(read_checkpoint_number("erebus", "erebus"), None);
    assert_eq!(read_checkpoint_number("erebus", "erebus12"), None);
    assert_eq!(read_checkpoint_number("erebus", "erebuS-12"), None);
    assert_eq!(read_checkpoint_number("erebus", "xerebus-12"), None);
    assert_eq!(read_checkpoint_number("erebus", "erebus-12.bin"), None);
    assert_eq!(read_checkpoint_number("", "-3"), Some(3));
    assert_eq!(read_checkpoint_number("é", "é-3"), Some(3));
}

#[test]
fn the_latest_checkpoint_decides_where_to_start() {
    assert_eq!(find_latest_superbatch("erebus", &names(&[])), 1);
    assert_eq!(find_latest_superbatch("erebus", &names(&["erebus-0"])), 1);
    assert_eq!(find_latest_superbatch("erebus", &names(&["other-5", "log.txt"])), 1);
    assert_eq!(
        find_latest_superbatch("erebus", &names(&["erebus-2", "erebus-10", "erebus-9", "x-11"])),
        11
    );
}

#[test]
fn a_saved_checkpoint_is_resumed_from() {
    let mut files = names(&["erebus-3", "erebus-1"]);
    let start = find_latest_superbatch("erebus", &files);
    assert_eq!(start, 4);
    assert_eq!(resume_path("checkpoints", "erebus", start), Some("checkpoints/erebus-3".to_string()));
    files.push("erebus-17".to_string());
    let start = find_latest_superbatch("erebus", &files);
    assert_eq!(start, 18);
    assert_eq!(
        resume_path("checkpoints", "erebus", start),
        Some("checkpoints/erebus-17".to_string())
    );
    assert_eq!(resume_path("checkpoints", "erebus", 1), None);
    assert_eq!(resume_path("checkpoints", "erebus", 0), None);
}

#[test]
fn run_lengths() {
    assert_eq!(total_planned_superbatches(), 474);
    assert_eq!(positions_in_one_pass(0), 1);
    assert_eq!(positions_in_one_pass(14_745_600_000), 1);
    assert_eq!(positions_in_one_pass(29_491_199_999), 1);
    assert_eq!(positions_in_one_pass(29_491_200_000), 2);
    let e = estimate_pass(29_491_200_000);
    assert_eq!((e.megabytes, e.million_positions, e.superbatches), (28_125, 294, 2));
}

#[test]
fn passes_from_arguments() {
    assert_eq!(parse_passes(None), 1);
    assert_eq!(parse_passes(Some("3")), 3);
    assert_eq!(parse_passes(Some("0")), 1);
    assert_eq!(parse_passes(Some("many")), 1);
}

#[test]
fn session_plans() {
    let plan = plan_session(4, 2, 3);
    assert_eq!(plan.start_superbatch, 4);
    assert_eq!(plan.superbatches_this_session, 6);
    assert_eq!(plan.end_superbatch, 10);
    assert_eq!(plan.total_planned, 474);
    assert!(!plan.past_schedule);
    assert!(!plan_session(474, 1, 1).past_schedule);
    assert!(plan_session(475, 1, 1).past_schedule);
}
