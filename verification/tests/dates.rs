use name_history::date::{
    ObservationDate, MAX_EPOCH_DAY, MAX_TIMESTAMP, MIN_EPOCH_DAY, MIN_TIMESTAMP, SECONDS_PER_DAY,
};
use name_history::dateset::DateSet;

fn day(secs: i64) -> i32 {
    ObservationDate::from_timestamp(secs).unwrap().epoch_days()
}

fn text(secs: i64) -> String {
    ObservationDate::from_timestamp(secs).unwrap().iso_text()
}

#[test]
fn the_epoch_is_day_zero() {
    assert_eq!(day(0), 0);
    assert_eq!(text(0), "1970-01-01");
}

#[test]
fn a_timestamp_is_cut_down_to_its_day() {
    assert_eq!(day(86_399), 0);
    assert_eq!(day(86_400), 1);
    assert_eq!(day(172_800), 2);
    assert_eq!(text(86_399), "1970-01-01");
    assert_eq!(text(86_400), "1970-01-02");
    assert_eq!(text(1_652_000_000), "2022-05-08");
    assert_eq!(SECONDS_PER_DAY, 86_400);
}

#[test]
fn timestamps_before_the_epoch_round_down() {
    assert_eq!(day(-1), -1);
    assert_eq!(day(-86_400), -1);
    assert_eq!(day(-86_401), -2);
    assert_eq!(text(-1), "1969-12-31");
}

#[test]
fn the_calendar_ends_where_chrono_ends() {
    assert_eq!(day(MIN_TIMESTAMP), MIN_EPOCH_DAY);
    assert_eq!(day(MAX_TIMESTAMP), MAX_EPOCH_DAY);
    assert!(ObservationDate::from_timestamp(MIN_TIMESTAMP - 1).is_none());
    assert!(ObservationDate::from_timestamp(MAX_TIMESTAMP + 1).is_none());
    assert!(ObservationDate::from_timestamp(i64::MIN).is_none());
    assert!(ObservationDate::from_timestamp(i64::MAX).is_none());
    assert_eq!(text(MIN_TIMESTAMP), "-262143-01-01");
    assert_eq!(text(MAX_TIMESTAMP), "+262142-12-31");
}

#[test]
fn dates_by_day_number() {
    assert_eq!(ObservationDate::from_epoch_days(0).unwrap().iso_text(), "1970-01-01");
    assert_eq!(ObservationDate::from_epoch_days(13_036).unwrap().iso_text(), "2005-09-10");
    assert_eq!(ObservationDate::from_epoch_days(-719_162).unwrap().iso_text(), "0001-01-01");
    assert!(ObservationDate::from_epoch_days(MIN_EPOCH_DAY).is_some());
    assert!(ObservationDate::from_epoch_days(MAX_EPOCH_DAY).is_some());
    assert!(ObservationDate::from_epoch_days(MIN_EPOCH_DAY - 1).is_none());
    assert!(ObservationDate::from_epoch_days(MAX_EPOCH_DAY + 1).is_none());
    assert_eq!(
        ObservationDate::from_epoch_days(5),
        ObservationDate::from_timestamp(5 * 86_400 + 17)
    );
}

fn days_of(set: &DateSet) -> Vec<i32> {
    set.to_vec().iter().map(|date| date.epoch_days()).collect()
}

#[test]
fn timestamps_become_ascending_dates_without_repeats() {
    let set = DateSet::from_timestamps(&vec![172_800, 0, 86_400, 5, 172_801, 0]).unwrap();
    assert_eq!(days_of(&set), vec![0, 1, 2]);
    assert_eq!(set.len(), 3);
    assert_eq!(set.get(2).iso_text(), "1970-01-03");
}

#[test]
fn no_timestamps_give_the_empty_set() {
    let set = DateSet::from_timestamps(&vec![]).unwrap();
    assert_eq!(set.len(), 0);
    assert_eq!(DateSet::new().len(), 0);
}

#[test]
fn one_timestamp_outside_the_calendar_spoils_the_set() {
    assert!(DateSet::from_timestamps(&vec![0, i64::MAX, 86_400]).is_none());
}

#[test]
fn many_timestamps_in_any_order() {
    let mut stamps: Vec<i64> = Vec::new();
    let mut x: i64 = 12_345;
    for _ in 0..2_000 {
        x = (x * 1_103_515_245 + 12_345) % 2_147_483_648;
        stamps.push((x % 500) * 86_400 + x % 86_400);
    }
    let set = DateSet::from_timestamps(&stamps).unwrap();
    let mut expected: Vec<i32> = stamps.iter().map(|s| s.div_euclid(86_400) as i32).collect();
    expected.sort();
    expected.dedup();
    assert_eq!(days_of(&set), expected);
}

#[test]
fn union_keeps_every_date_once() {
    let a = DateSet::from_timestamps(&vec![0, 86_400, 172_800]).unwrap();
    let b = DateSet::from_timestamps(&vec![172_800, 259_200]).unwrap();
    assert_eq!(days_of(&a.union(&b)), vec![0, 1, 2, 3]);
    assert_eq!(days_of(&b.union(&a)), vec![0, 1, 2, 3]);
    assert_eq!(days_of(&a.union(&a)), vec![0, 1, 2]);
    assert_eq!(days_of(&a.union(&DateSet::new())), vec![0, 1, 2]);
    assert_eq!(days_of(&DateSet::new().union(&b)), vec![2, 3]);
    assert_eq!(days_of(&a.duplicate()), vec![0, 1, 2]);
}

#[test]
fn dates_from_a_list() {
    let dates: Vec<ObservationDate> =
        [9, 3, 9, 1, 3].iter().map(|d| ObservationDate::from_epoch_days(*d).unwrap()).collect();
    assert_eq!(days_of(&DateSet::from_dates(&dates)), vec![1, 3, 9]);
    let only = DateSet::single(ObservationDate::from_epoch_days(4).unwrap());
    assert_eq!(days_of(&only), vec![4]);
}
