use evolution_simulator::scheduler::secondary_device_names;

#[test]
fn secondary_devices_are_opt_in_and_selection_sentinels_disable_them() {
    assert_eq!(secondary_device_names(None), Vec::<&str>::new());
    assert_eq!(secondary_device_names(Some("primary")), Vec::<&str>::new());
    assert_eq!(secondary_device_names(Some("off")), Vec::<&str>::new());
    assert_eq!(secondary_device_names(Some(" OFF ")), Vec::<&str>::new());
}

#[test]
fn secondary_device_names_preserve_explicit_comma_separated_selection() {
    assert_eq!(
        secondary_device_names(Some("radeon, RTX 4060")),
        vec!["radeon", "RTX 4060"]
    );
    assert_eq!(
        secondary_device_names(Some("primary, radeon, off")),
        vec!["radeon"]
    );
    assert_eq!(secondary_device_names(Some(" , ")), Vec::<&str>::new());
}

use evolution_simulator::scheduler::{
    begin_round, capacity_order, check_unit, checks_wait, extend_round, robust_trials, round_finished,
    take_unit, unit_size, Round,
};

#[test]
fn creatures_are_handed_out_by_capacity_group() {
    assert_eq!(capacity_order(&[3, 0, 2, 1], &[3, 70, 10, 4]), vec![0, 3, 2, 1]);
    assert_eq!(capacity_order(&[2, 0, 5, 4], &[3; 6]), vec![2, 0, 5, 4]);
    assert_eq!(capacity_order(&[], &[3]), Vec::<usize>::new());
}

#[test]
fn robust_trials_are_one_or_two() {
    assert_eq!(robust_trials(None), 2);
    assert_eq!(robust_trials(Some("1")), 1);
    assert_eq!(robust_trials(Some("0")), 1);
    assert_eq!(robust_trials(Some("7")), 2);
    assert_eq!(robust_trials(Some("x")), 2);
}

#[test]
fn units_skip_done_creatures_and_queue_oversize_ones() {
    let nodes = [3, 3, 20, 3, 3, 3, 3, 3, 3, 70];
    let mut done = [false; 10];
    done[1] = true;
    let mut round = Round { order: vec![0, 1, 2, 3, 4], cursor: 0, oversize: vec![9] };
    let unit = take_unit(&mut round, 2, 8, &done, &nodes);
    assert_eq!(unit, vec![0, 3]);
    assert_eq!(round.cursor, 4);
    assert_eq!(round.oversize, vec![9, 2]);
    assert!(!round_finished(&round));
    let unit = take_unit(&mut round, 3, 64, &done, &nodes);
    assert_eq!(unit, vec![9, 2, 4]);
    assert_eq!(round.cursor, 5);
    assert!(round.oversize.is_empty());
    assert!(round_finished(&round));
}

#[test]
fn a_round_begins_once_and_extends_in_capacity_order() {
    let nodes = [3, 70, 10, 4, 3];
    let mut round: Option<Round> = None;
    begin_round(&mut round, &[], &nodes);
    assert!(round.is_none());
    begin_round(&mut round, &[1, 2, 0], &nodes);
    let r = round.as_ref().expect("a round");
    assert_eq!(r.order, vec![0, 2, 1]);
    assert_eq!(r.cursor, 0);
    begin_round(&mut round, &[3], &nodes);
    assert_eq!(round.as_ref().unwrap().order, vec![0, 2, 1]);
    round.as_mut().unwrap().cursor = 2;
    extend_round(&mut round, &[3, 4], &nodes);
    let r = round.as_ref().unwrap();
    assert_eq!(r.order, vec![0, 2, 1, 4, 3]);
    assert_eq!(r.cursor, 2);
    let mut empty: Option<Round> = None;
    extend_round(&mut empty, &[], &nodes);
    assert!(empty.is_none());
    extend_round(&mut empty, &[1], &nodes);
    assert_eq!(empty.unwrap().order, vec![1]);
}

#[test]
fn unit_sizes_follow_rate_share_and_floor() {
    // Fast engine: its rate decides.
    assert_eq!(unit_size(500, 2000, 0, 64, 10_000), Some(500));
    // Fair share left after what it holds.
    assert_eq!(unit_size(500, 300, 100, 64, 10_000), Some(200));
    // Never below the smallest unit, never above what is left.
    assert_eq!(unit_size(10, 1000, 0, 64, 10_000), Some(64));
    assert_eq!(unit_size(500, 2000, 0, 64, 40), Some(40));
    // A slow engine that still holds work waits near the end.
    assert_eq!(unit_size(500, 120, 100, 64, 10_000), None);
    assert_eq!(unit_size(500, 20, 0, 64, 10_000), Some(64));
}

#[test]
fn check_units_take_fitting_contenders_in_order() {
    let nodes = [3, 70, 10, 4, 3, 9];
    let (unit, rest) = check_unit(&[5, 1, 0, 2, 4, 3], &nodes, 3, 16);
    assert_eq!(unit, vec![5, 0, 2]);
    assert_eq!(rest, vec![1, 4, 3]);
    let (unit, rest) = check_unit(&[1], &nodes, 8, 64);
    assert!(unit.is_empty());
    assert_eq!(rest, vec![1]);
    assert!(checks_wait(3, 64, true, false));
    assert!(!checks_wait(3, 64, true, true));
    assert!(!checks_wait(3, 64, false, false));
    assert!(!checks_wait(32, 64, true, false));
}
