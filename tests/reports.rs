use aips_rust::collection::{CarCountEntry, CarCountsCollection};
use aips_rust::timestamp::{Date, Timestamp};

fn provide_test_data_vec() -> Vec<&'static str> {
    vec![
        "2021-12-01T05:00:00 5",
        "2021-12-01T05:30:00 12",
        "2021-12-01T06:00:00 14",
        "2021-12-01T06:30:00 15",
        "2021-12-01T07:00:00 25",
        "2021-12-01T07:30:00 46",
        "2021-12-01T08:00:00 42",
        "2021-12-01T15:00:00 9",
        "2021-12-01T15:30:00 11",
        "2021-12-01T23:30:00 0",
        "2021-12-05T09:30:00 18",
        "2021-12-05T10:30:00 15",
        "2021-12-05T11:30:00 7",
        "2021-12-05T12:30:00 6",
        "2021-12-05T13:30:00 9",
        "2021-12-05T14:30:00 11",
        "2021-12-05T15:30:00 15",
        "2021-12-08T18:00:00 33",
        "2021-12-08T19:00:00 28",
        "2021-12-08T20:00:00 25",
        "2021-12-08T21:00:00 21",
        "2021-12-08T22:00:00 16",
        "2021-12-08T23:00:00 11",
        "2021-12-09T00:00:00 4",
    ]
}

fn collection_of(lines: &[&str]) -> CarCountsCollection {
    let v: Vec<String> = lines.iter().map(|l| l.to_string()).collect();
    CarCountsCollection::new_from_lines(&v)
}

fn sample() -> CarCountsCollection {
    collection_of(&provide_test_data_vec())
}

fn ts(year: u32, month: u32, day: u32, hour: u32, minute: u32, second: u32) -> Timestamp {
    Timestamp { year, month, day, hour, minute, second }
}

fn date(year: u32, month: u32, day: u32) -> Date {
    Date { year, month, day }
}

#[test]
fn test_totals_by_day() {
    let data = sample();
    let totals_8th = data.total_for_day(date(2021, 12, 8));
    let totals_5th = data.total_for_day(date(2021, 12, 5));
    assert_eq!(totals_8th, 134);
    assert_eq!(totals_5th, 81);
}

#[test]
fn test_top_three() {
    let top_three_ans = vec![
        "2021-12-01T07:30:00 46",
        "2021-12-01T08:00:00 42",
        "2021-12-08T18:00:00 33",
    ];
    let data = sample();
    let top_three = data.top_three_counts();
    assert_eq!(top_three.len(), 3);
    for (i, entry) in top_three.iter().enumerate() {
        assert_eq!(entry.raw_data, top_three_ans[i]);
    }
}

#[test]
fn can_create_entries_from_disk() {
    let test_data = provide_test_data_vec();
    assert_eq!(test_data.len(), sample().collection.len())
}

#[test]
fn test_datetime_parser() {
    let mut test_data = vec![
        "2021-12-01T05:00:00 5",
        "2021-12-01T08:00:00 42",
        "2021-12-01T15:00:00 9",
    ]
    .into_iter();
    assert_eq!(
        ts(2021, 12, 1, 5, 0, 0),
        CarCountEntry::parse_timestamp(test_data.next().unwrap())
    );
    assert_eq!(
        ts(2021, 12, 1, 8, 0, 0),
        CarCountEntry::parse_timestamp(test_data.next().unwrap())
    );
    assert_eq!(
        ts(2021, 12, 1, 15, 0, 0),
        CarCountEntry::parse_timestamp(test_data.next().unwrap())
    );
}

#[test]
fn test_lowest_90min() {
    let data = sample();
    let ninety = data.lowest_90min_total();
    let answers = vec![31, 41, 54];
    for i in ninety.iter().zip(answers.into_iter()) {
        assert_eq!(i.0.total, i.1)
    }
}

#[test]
fn total_cars_counted() {
    let data = sample();
    assert_eq!(data.total_cars_counted(), 398);
}

#[test]
fn window_scan_ranks_all_sample_windows() {
    let ranked = sample().lowest_90min_total();
    let totals: Vec<u128> = ranked.iter().map(|w| w.total).collect();
    assert_eq!(totals, vec![31, 41, 54, 86, 113]);
    assert_eq!(ranked[0].start, ts(2021, 12, 1, 5, 0, 0));
    assert_eq!(ranked[0].end, ts(2021, 12, 1, 6, 0, 0));
    assert_eq!(ranked[0].start.to_iso_string(), "2021-12-01T05:00:00");
}

#[test]
fn window_scan_rejects_gaps() {
    let data = collection_of(&["2021-12-01T05:00:00 1", "2021-12-01T05:30:00 2", "2021-12-01T07:00:00 3"]);
    assert!(data.lowest_90min_total().is_empty());
}

#[test]
fn window_scan_crosses_midnight() {
    let data = collection_of(&["2021-12-31T23:30:00 1", "2022-01-01T00:00:00 2", "2022-01-01T00:30:00 3"]);
    let ranked = data.lowest_90min_total();
    assert_eq!(ranked.len(), 1);
    assert_eq!(ranked[0].total, 6);
    assert_eq!(ranked[0].end, ts(2022, 1, 1, 0, 30, 0));
}

#[test]
fn window_scan_needs_valid_dates() {
    let data = collection_of(&["2021-13-01T05:00:00 1", "2021-13-01T05:30:00 2", "2021-13-01T06:00:00 3"]);
    assert!(data.lowest_90min_total().is_empty());
}

#[test]
fn window_scan_keeps_scan_order_for_equal_totals() {
    let data = collection_of(&[
        "2021-12-01T05:00:00 1",
        "2021-12-01T05:30:00 1",
        "2021-12-01T06:00:00 1",
        "2021-12-01T06:30:00 1",
    ]);
    let ranked = data.lowest_90min_total();
    assert_eq!(ranked.len(), 2);
    assert_eq!(ranked[0].start, ts(2021, 12, 1, 5, 0, 0));
    assert_eq!(ranked[1].start, ts(2021, 12, 1, 5, 30, 0));
}

#[test]
fn rank_windows_follows_given_flags() {
    let data = collection_of(&[
        "2021-12-01T05:00:00 9",
        "2021-12-01T05:30:00 1",
        "2021-12-01T06:00:00 1",
        "2021-12-01T06:30:00 1",
    ]);
    let ranked = data.rank_windows(&vec![true, true, true, true]);
    let totals: Vec<u128> = ranked.iter().map(|w| w.total).collect();
    assert_eq!(totals, vec![3, 11]);
    assert!(data.rank_windows(&vec![false, false, false, false]).is_empty());
}

#[test]
fn short_collections_have_no_window() {
    let data = collection_of(&["2021-12-01T05:00:00 3", "2021-12-01T05:30:00 7"]);
    assert!(data.lowest_90min_total().is_empty());
    let top = data.top_three_counts();
    assert_eq!(top.len(), 2);
    assert_eq!(top[0].count, 7);
    assert_eq!(top[1].count, 3);
    let empty = collection_of(&[]);
    assert!(empty.lowest_90min_total().is_empty());
    assert!(empty.top_three_counts().is_empty());
    assert_eq!(empty.total_cars_counted(), 0);
}

#[test]
fn top_three_keeps_order_of_equal_counts() {
    let data = collection_of(&[
        "2021-12-01T05:00:00 4",
        "2021-12-01T05:30:00 8",
        "2021-12-01T06:00:00 4",
        "2021-12-01T06:30:00 8",
        "2021-12-01T07:00:00 4",
    ]);
    let top: Vec<String> = data.top_three_counts().iter().map(|e| e.raw_data.clone()).collect();
    assert_eq!(top, vec!["2021-12-01T05:30:00 8", "2021-12-01T06:30:00 8", "2021-12-01T05:00:00 4"]);
}

#[test]
fn totals_by_day_in_order_of_first_appearance() {
    let totals = sample().total_cars_counted_by_day();
    assert_eq!(
        totals,
        vec![(date(2021, 12, 1), 179), (date(2021, 12, 5), 81), (date(2021, 12, 8), 134), (date(2021, 12, 9), 4)]
    );
    let mixed = collection_of(&["2021-12-05T09:30:00 1", "2021-12-01T09:30:00 2", "2021-12-05T10:30:00 3"]);
    assert_eq!(mixed.count_unique_days(), vec![date(2021, 12, 5), date(2021, 12, 1)]);
    assert_eq!(mixed.total_cars_counted_by_day(), vec![(date(2021, 12, 5), 4), (date(2021, 12, 1), 2)]);
    assert_eq!(date(2021, 12, 5).to_iso_string(), "2021-12-05");
}

#[test]
fn day_total_of_absent_day_is_zero() {
    assert_eq!(sample().total_for_day(date(2021, 12, 2)), 0);
}

#[test]
fn malformed_count_reads_as_zero() {
    let data = collection_of(&["2021-12-01T05:00:00 abc", "2021-12-01T05:30:00 12", "2021-12-01T06:00:00", "2021-12-01T06:30:00 -3"]);
    assert_eq!(data.collection.len(), 4);
    assert_eq!(data.collection[0].count, 0);
    assert_eq!(data.collection[0].raw_data, "2021-12-01T05:00:00 abc");
    assert_eq!(data.collection[1].count, 12);
    assert_eq!(data.collection[2].count, 0);
    assert_eq!(data.collection[3].count, 0);
    assert_eq!(data.total_cars_counted(), 12);
}

#[test]
fn count_parsing_accepts_plus_and_ignores_extra_tokens() {
    let e = CarCountEntry::new_from_raw("  2021-12-01T05:00:00\t+17 extra tokens".to_string());
    assert_eq!(e.count, 17);
    assert_eq!(e.timestamp, ts(2021, 12, 1, 5, 0, 0));
    assert_eq!(e.raw_data, "  2021-12-01T05:00:00\t+17 extra tokens");
    let big = CarCountEntry::new_from_raw("2021-12-01T05:00:00 99999999999999999999999".to_string());
    assert_eq!(big.count, 0);
}

#[test]
fn malformed_timestamp_fields_read_as_zero() {
    assert_eq!(CarCountEntry::parse_timestamp("2021-xx-01T05:00:00"), ts(2021, 0, 1, 5, 0, 0));
    assert_eq!(CarCountEntry::parse_timestamp("2021-12-01"), ts(2021, 12, 1, 0, 0, 0));
    assert_eq!(CarCountEntry::parse_timestamp("2021-12T07"), ts(2021, 12, 0, 7, 0, 0));
    assert_eq!(CarCountEntry::parse_timestamp(""), ts(0, 0, 0, 0, 0, 0));
}

#[test]
fn timestamp_text_round_trips() {
    for s in ["2021-12-01T05:00:00", "0007-01-31T23:59:59", "9999-12-31T00:00:01"] {
        assert_eq!(CarCountEntry::parse_timestamp(s).to_iso_string(), s);
    }
    assert_eq!(ts(12345, 1, 2, 3, 4, 5).to_iso_string(), "12345-01-02T03:04:05");
}

#[test]
fn entry_from_parts_builds_its_line() {
    let e = CarCountEntry::new("2021-12-01T05:00:00".to_string(), 42);
    assert_eq!(e.raw_data, "2021-12-01T05:00:00 42");
    assert_eq!(e.count, 42);
    assert_eq!(e.timestamp, ts(2021, 12, 1, 5, 0, 0));
    assert_eq!(e.duplicate(), e);
}

#[test]
fn reports_are_repeatable() {
    let data = sample();
    assert_eq!(data.total_cars_counted(), data.total_cars_counted());
    assert_eq!(data.total_cars_counted_by_day(), data.total_cars_counted_by_day());
    assert_eq!(data.top_three_counts(), data.top_three_counts());
    assert_eq!(data.lowest_90min_total(), data.lowest_90min_total());
}
