use tetris::input::{apply_keys, yes_no, InputPackage, Key, PressLog, Rotation, COOLDOWN_MICROS};

#[test]
fn an_empty_request() {
    let p = InputPackage::new();
    assert_eq!(p.move_x, 0);
    assert_eq!(p.rotate, Rotation::Not);
    assert!(!p.hard_drop && !p.soft_drop && !p.store);
}

#[test]
fn keys_after_the_cooldown_count() {
    let mut log = PressLog::new(0);
    let p = apply_keys(&InputPackage::new(), &vec![Key::Left, Key::Up, Key::C], &mut log, 10_000);
    assert_eq!(p.move_x, -1);
    assert_eq!(p.rotate, Rotation::Clockwise);
    assert!(p.store);
    assert_eq!(log.last_pressed(0), Some(10_000));
    assert_eq!(log.last_pressed(2), Some(10_000));
    assert_eq!(log.last_pressed(6), Some(10_000));
    assert_eq!(log.last_pressed(1), Some(0));
}

#[test]
fn keys_within_the_cooldown_do_not_count() {
    let mut log = PressLog::new(0);
    let p = apply_keys(&InputPackage::new(), &vec![Key::Right], &mut log, COOLDOWN_MICROS - 1);
    assert_eq!(p.move_x, 0);
    // The press is still logged, so the cooldown starts again.
    assert_eq!(log.last_pressed(1), Some(COOLDOWN_MICROS - 1));
    let p = apply_keys(&InputPackage::new(), &vec![Key::Right], &mut log, COOLDOWN_MICROS + 1);
    assert_eq!(p.move_x, 0);
    let p = apply_keys(&InputPackage::new(), &vec![Key::Right], &mut log, 3 * COOLDOWN_MICROS);
    assert_eq!(p.move_x, 1);
}

#[test]
fn a_key_counts_once_per_reading() {
    let mut log = PressLog::new(0);
    let mut start = InputPackage::new();
    start.rotate = Rotation::Counterclockwise;
    let p = apply_keys(&start, &vec![Key::Up, Key::Up], &mut log, 10_000);
    assert_eq!(p.rotate, Rotation::Clockwise);
    let p = apply_keys(&start, &vec![Key::Z], &mut log, 20_000);
    assert_eq!(p.rotate, Rotation::Counterclockwise);
    let p = apply_keys(&InputPackage::new(), &vec![Key::LControl], &mut log, 20_000);
    assert_eq!(p.rotate, Rotation::Counterclockwise);
}

#[test]
fn down_is_a_soft_drop_without_cooldown() {
    let mut log = PressLog::new(0);
    let p = apply_keys(&InputPackage::new(), &vec![Key::Down], &mut log, 1);
    assert!(p.soft_drop);
    let p = apply_keys(&InputPackage::new(), &vec![Key::Other], &mut log, 50_000);
    assert_eq!(p.move_x, 0);
    assert!(!p.soft_drop && !p.hard_drop && !p.store);
}

#[test]
fn hard_drop_cancels_sideways_moves() {
    let mut log = PressLog::new(0);
    let p = apply_keys(&InputPackage::new(), &vec![Key::Left, Key::Space], &mut log, 10_000);
    assert!(p.hard_drop);
    assert_eq!(p.move_x, 0);
    let mut earlier = InputPackage::new();
    earlier.hard_drop = true;
    earlier.move_x = 1;
    let p = apply_keys(&earlier, &vec![], &mut log, 10_000);
    assert_eq!(p.move_x, 0);
}

#[test]
fn shifts_store() {
    let mut log = PressLog::new(0);
    assert!(apply_keys(&InputPackage::new(), &vec![Key::LShift], &mut log, 10_000).store);
    assert!(apply_keys(&InputPackage::new(), &vec![Key::RShift], &mut log, 10_000).store);
}

#[test]
fn play_again_answers() {
    assert_eq!(yes_no("Y"), Some(true));
    assert_eq!(yes_no("N"), Some(false));
    assert_eq!(yes_no("YES"), None);
    assert_eq!(yes_no(""), None);
    assert_eq!(yes_no("y"), None);
}

#[test]
fn a_new_log_holds_the_nine_timed_keys() {
    let log = PressLog::new(7);
    for slot in 0..9 {
        assert_eq!(log.last_pressed(slot), Some(7));
    }
    assert_eq!(log.last_pressed(9), None);
}

#[test]
fn a_key_past_its_cooldown_acts_after_the_others() {
    let mut log = PressLog::new(0);
    let p = apply_keys(&InputPackage::new(), &vec![Key::Left, Key::Right], &mut log, COOLDOWN_MICROS);
    assert_eq!(p.move_x, 1);
    assert_eq!(log.last_pressed(0), Some(COOLDOWN_MICROS));
    assert_eq!(log.last_pressed(1), Some(COOLDOWN_MICROS));
}
