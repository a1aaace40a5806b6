use puzzlegrid::guards::find_most_likely_asleep;
use puzzlegrid::guards::find_most_sleepy_guard;
use puzzlegrid::guards::find_most_sleepy_minute;
use puzzlegrid::guards::parse_records;
use puzzlegrid::guards::spans_of;
use puzzlegrid::guards::GuardError;

#[test]
fn sleepy_guards() {
    let data: Vec<String> = [
        "[1518-11-01 00:00] Guard #10 begins shift",
        "[1518-11-01 00:05] falls asleep",
        "[1518-11-01 00:25] wakes up",
        "[1518-11-01 00:30] falls asleep",
        "[1518-11-01 00:55] wakes up",
        "[1518-11-01 23:58] Guard #99 begins shift",
        "[1518-11-02 00:40] falls asleep",
        "[1518-11-02 00:50] wakes up",
        "[1518-11-03 00:05] Guard #10 begins shift",
        "[1518-11-03 00:24] falls asleep",
        "[1518-11-03 00:29] wakes up",
        "[1518-11-04 00:02] Guard #99 begins shift",
        "[1518-11-04 00:36] falls asleep",
        "[1518-11-04 00:46] wakes up",
        "[1518-11-05 00:03] Guard #99 begins shift",
        "[1518-11-05 00:45] falls asleep",
        "[1518-11-05 00:55] wakes up",
    ]
    .iter()
    .map(|s| s.to_string())
    .collect();

    let guards = parse_records(&data).unwrap();
    let most_sleepy_guard = find_most_sleepy_guard(&guards);
    assert_eq!(most_sleepy_guard, 10);
    let (most_sleepy_minute, _) = find_most_sleepy_minute(&spans_of(&guards, 10));
    assert_eq!(most_sleepy_minute, 24);
    let (best_guard, best_minute) = find_most_likely_asleep(&guards);
    assert_eq!(best_guard, 99);
    assert_eq!(best_minute, 45);
}

#[test]
fn bad_record_is_rejected() {
    let data: Vec<String> = ["not a record at all".to_string()].to_vec();
    assert_eq!(parse_records(&data), Err(GuardError::BadRecord));
}

#[test]
fn bad_minute_is_rejected() {
    let data: Vec<String> = [
        "[1518-11-01 00:00] Guard #10 begins shift",
        "[1518-11-01 00:75] falls asleep",
    ]
    .iter()
    .map(|s| s.to_string())
    .collect();
    assert_eq!(parse_records(&data), Err(GuardError::BadMinute));
}

#[test]
fn double_sleep_is_rejected() {
    let data: Vec<String> = [
        "[1518-11-01 00:00] Guard #10 begins shift",
        "[1518-11-01 00:05] falls asleep",
        "[1518-11-01 00:06] falls asleep",
    ]
    .iter()
    .map(|s| s.to_string())
    .collect();
    assert_eq!(parse_records(&data), Err(GuardError::DoubleSleep));
}

#[test]
fn wake_without_sleep_is_rejected() {
    let data: Vec<String> = [
        "[1518-11-01 00:00] Guard #10 begins shift",
        "[1518-11-01 00:25] wakes up",
    ]
    .iter()
    .map(|s| s.to_string())
    .collect();
    assert_eq!(parse_records(&data), Err(GuardError::WakeBeforeSleep));
}

#[test]
fn wake_before_any_shift_is_rejected() {
    let data: Vec<String> = [
        "[1518-11-01 00:05] falls asleep",
        "[1518-11-01 00:25] wakes up",
    ]
    .iter()
    .map(|s| s.to_string())
    .collect();
    assert_eq!(parse_records(&data), Err(GuardError::NoShift));
}

#[test]
fn records_without_sleep_are_rejected() {
    let data: Vec<String> = ["[1518-11-01 00:00] Guard #10 begins shift".to_string()].to_vec();
    assert_eq!(parse_records(&data), Err(GuardError::NoGuards));
}

#[test]
fn oversized_guard_number_is_rejected() {
    let data: Vec<String> =
        ["[1518-11-01 00:00] Guard #99999999999 begins shift".to_string()].to_vec();
    assert_eq!(parse_records(&data), Err(GuardError::BadGuardId));
}
