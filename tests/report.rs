use worklog::cli::{line_is_closed, line_is_open, Mode};
use worklog::render::{calendar_lines, clock_text, report_lines, total_line};
use worklog::report::{process_csv, DayRecord, ErrorKind, Report};
use worklog::stamp::{nb_days_in_month, Stamp};

fn stamp(year: i32, month: u32, day: u32, hour: u32, minute: u32) -> Stamp {
    Stamp { year, month, day, hour, minute, second: 0 }
}

fn lines(mode: Mode, text: &str) -> Vec<String> {
    let rep = process_csv(text, None).unwrap();
    report_lines(mode, &rep.records, rep.total_seconds).unwrap()
}

const APRIL: &str = "2024-04-01 09:00:00,2024-04-01 18:00:00\n2024-04-03 09:00:00,2024-04-03 17:30:00\n";

#[test]
fn april_total() {
    assert_eq!(lines(Mode::Total, APRIL), vec!["Total worked hours: 17:30".to_string()]);
}

#[test]
fn april_starts() {
    let out = lines(Mode::Starts, APRIL);
    assert_eq!(out.len(), 30);
    assert_eq!(out[0], "09:00");
    assert_eq!(out[1], "00:00");
    assert_eq!(out[2], "09:00");
    for l in &out[3..] {
        assert_eq!(l, "00:00");
    }
}

#[test]
fn april_ends() {
    let out = lines(Mode::Ends, APRIL);
    assert_eq!(out.len(), 30);
    assert_eq!(out[0], "18:00");
    assert_eq!(out[1], "00:00");
    assert_eq!(out[2], "17:30");
}

#[test]
fn march_has_thirty_one_lines() {
    let out = lines(Mode::Starts, "2024-03-05 10:15:00,2024-03-05 12:00:00");
    assert_eq!(out.len(), 31);
    assert_eq!(out[4], "10:15");
}

#[test]
fn end_before_start_is_rejected() {
    let e = process_csv("2024-04-01 09:00:00,2024-04-01 08:00:00", None).unwrap_err();
    assert_eq!(e.kind, ErrorKind::NegativeDuration);
    assert_eq!(e.line, "2024-04-01 09:00:00,2024-04-01 08:00:00");
}

#[test]
fn open_line_is_malformed() {
    let text = "2024-04-01 09:00:00,2024-04-01 18:00:00\n2024-04-02 09:00:00\n";
    let e = process_csv(text, None).unwrap_err();
    assert_eq!(e.kind, ErrorKind::MalformedLine);
    assert_eq!(e.line, "2024-04-02 09:00:00");
}

#[test]
fn three_fields_are_malformed() {
    let e = process_csv("2024-04-01 09:00:00,2024-04-01 10:00:00,x", None).unwrap_err();
    assert_eq!(e.kind, ErrorKind::MalformedLine);
}

#[test]
fn bad_timestamp_is_rejected() {
    let e = process_csv("2024-04-01 09:00,2024-04-01 10:00:00", None).unwrap_err();
    assert_eq!(e.kind, ErrorKind::TimestampFormat);
    let e = process_csv("2024-02-30 09:00:00,2024-02-30 10:00:00", None).unwrap_err();
    assert_eq!(e.kind, ErrorKind::TimestampFormat);
}

#[test]
fn over_a_day_is_rejected() {
    let e = process_csv("2024-04-01 09:00:00,2024-04-02 09:00:01", None).unwrap_err();
    assert_eq!(e.kind, ErrorKind::ExcessiveDuration);
    let rep = process_csv("2024-04-01 09:00:00,2024-04-02 09:00:00", None).unwrap();
    assert_eq!(rep.total_seconds, 86400);
}

#[test]
fn first_bad_line_wins() {
    let text = "2024-04-01 09:00:00,2024-04-01 08:00:00\nnot a line\n";
    let e = process_csv(text, None).unwrap_err();
    assert_eq!(e.kind, ErrorKind::NegativeDuration);
}

#[test]
fn no_entries_for_calendar() {
    let rep = process_csv("", None).unwrap();
    assert_eq!(rep.total_seconds, 0);
    assert_eq!(report_lines(Mode::Starts, &rep.records, 0).unwrap_err().kind, ErrorKind::NoEntries);
    assert_eq!(report_lines(Mode::Ends, &rep.records, 0).unwrap_err().kind, ErrorKind::NoEntries);
    assert_eq!(
        report_lines(Mode::Total, &rep.records, 0).unwrap(),
        vec!["Total worked hours: 0:00".to_string()]
    );
}

#[test]
fn month_filter_keeps_only_target_month() {
    let text = "2024-03-31 09:00:00,2024-03-31 10:00:00\n2024-04-02 09:00:00,2024-04-02 11:00:00\n2024-05-02 09:00:00,2024-05-02 08:00:00\n";
    let rep = process_csv(text, Some(4)).unwrap();
    assert_eq!(rep.records.len(), 1);
    assert_eq!(rep.records[0].start, stamp(2024, 4, 2, 9, 0));
    assert_eq!(rep.total_seconds, 7200);
}

#[test]
fn three_sessions_merge_into_one_day() {
    let text = "2024-04-02 09:00:00,2024-04-02 12:00:00\n2024-04-02 13:00:00,2024-04-02 15:30:00\n2024-04-02 20:00:00,2024-04-02 21:15:00\n";
    let rep = process_csv(text, None).unwrap();
    assert_eq!(rep.records.len(), 1);
    assert_eq!(rep.records[0].start, stamp(2024, 4, 2, 9, 0));
    assert_eq!(rep.records[0].end, stamp(2024, 4, 2, 15, 45));
    assert_eq!(rep.total_seconds, (3 * 60 + 150 + 75) * 60);
}

#[test]
fn merged_end_crosses_midnight() {
    let text = "2024-04-02 18:00:00,2024-04-02 23:00:00\n2024-04-02 23:10:00,2024-04-03 01:40:00\n";
    let rep = process_csv(text, None).unwrap();
    assert_eq!(rep.records[0].end, stamp(2024, 4, 3, 1, 30));
    let out = report_lines(Mode::Ends, &rep.records, rep.total_seconds).unwrap();
    assert_eq!(out.len(), 30);
    assert_eq!(out[0], "00:00");
    assert_eq!(out[1], "25:30");
}

#[test]
fn early_end_rolls_back_a_day() {
    let recs = vec![
        DayRecord { start: stamp(2024, 4, 2, 20, 0), end: stamp(2024, 4, 3, 2, 15) },
        DayRecord { start: stamp(2024, 4, 4, 9, 0), end: stamp(2024, 4, 4, 7, 0) },
    ];
    let out = calendar_lines(Mode::Ends, &recs);
    assert_eq!(out.len(), 30);
    assert_eq!(out[0], "00:00");
    assert_eq!(out[1], "26:15");
    assert_eq!(out[2], "00:00");
    assert_eq!(out[3], "07:00");
}

#[test]
fn different_days_are_not_merged() {
    let text = "2024-04-02 09:00:00,2024-04-02 10:00:00\n2024-04-03 09:00:00,2024-04-03 10:00:00\n";
    let rep = process_csv(text, None).unwrap();
    assert_eq!(rep.records.len(), 2);
}

#[test]
fn crlf_and_blank_lines() {
    let text = "2024-04-01 09:00:00,2024-04-01 10:00:00\r\n\r\n\n2024-04-02 09:00:00,2024-04-02 10:30:00\r\n";
    let rep = process_csv(text, None).unwrap();
    assert_eq!(rep.records.len(), 2);
    assert_eq!(rep.total_seconds, 9000);
}

#[test]
fn parsing_twice_gives_the_same_report() {
    let a = process_csv(APRIL, None).unwrap();
    let b = process_csv(APRIL, None).unwrap();
    assert_eq!(a.records, b.records);
    assert_eq!(a.total_seconds, b.total_seconds);
}

#[test]
fn add_line_builds_a_report() {
    let mut rep = Report::new();
    rep.add_line("2024-04-01 09:00:00,2024-04-01 18:00:00", None).unwrap();
    rep.add_line("", None).unwrap();
    rep.add_line("2024-04-01 19:00:00,2024-04-01 19:30:00", None).unwrap();
    assert_eq!(rep.records.len(), 1);
    assert_eq!(rep.records[0].end, stamp(2024, 4, 1, 18, 30));
    assert_eq!(rep.total_seconds, 34200);
}

#[test]
fn merge_past_the_last_date_is_out_of_range() {
    let text = "+262142-12-31 20:00:00,+262142-12-31 23:00:00\n+262142-12-31 21:00:00,+262142-12-31 23:30:00\n";
    let e = process_csv(text, None).unwrap_err();
    assert_eq!(e.kind, ErrorKind::OutOfRange);
}

#[test]
fn total_line_formats_hours_and_minutes() {
    assert_eq!(total_line(0), "Total worked hours: 0:00");
    assert_eq!(total_line(3600 * 123 + 60 * 5 + 59), "Total worked hours: 123:05");
    assert_eq!(total_line(59 * 60), "Total worked hours: 0:59");
}

#[test]
fn clock_is_zero_padded() {
    assert_eq!(clock_text(7, 5), "07:05");
    assert_eq!(clock_text(26, 15), "26:15");
}

#[test]
fn month_lengths() {
    assert_eq!(nb_days_in_month(2024, 2), 29);
    assert_eq!(nb_days_in_month(2023, 2), 28);
    assert_eq!(nb_days_in_month(1900, 2), 28);
    assert_eq!(nb_days_in_month(2000, 2), 29);
    assert_eq!(nb_days_in_month(2024, 4), 30);
    assert_eq!(nb_days_in_month(2024, 12), 31);
}

#[test]
fn february_calendar_of_a_leap_year() {
    let out = lines(Mode::Starts, "2024-02-10 08:00:00,2024-02-10 09:00:00");
    assert_eq!(out.len(), 29);
}

#[test]
fn log_line_states() {
    assert!(line_is_open("2024-04-01 09:00:00"));
    assert!(!line_is_closed("2024-04-01 09:00:00"));
    assert!(line_is_closed("2024-04-01 09:00:00,2024-04-01 10:00:00"));
    assert!(!line_is_open("2024-04-01 09:00:00,2024-04-01 10:00:00"));
    assert!(!line_is_closed("a,b,c"));
}

#[test]
fn early_end_on_the_first_goes_to_the_last_day_before() {
    let recs = vec![DayRecord { start: stamp(2024, 3, 31, 20, 0), end: stamp(2024, 4, 1, 2, 0) }];
    let out = report_lines(Mode::Ends, &recs, 6 * 3600).unwrap();
    assert_eq!(out.len(), 31);
    assert_eq!(out[30], "26:00");
    for l in &out[..30] {
        assert_eq!(l, "00:00");
    }
}

#[test]
fn early_end_on_new_year_goes_to_december_thirty_first() {
    let text = "2023-12-31 21:00:00,2024-01-01 01:30:00";
    let out = lines(Mode::Ends, text);
    assert_eq!(out.len(), 31);
    assert_eq!(out[30], "25:30");
}

#[test]
fn early_end_in_february_of_a_leap_year() {
    let recs = vec![DayRecord { start: stamp(2024, 2, 29, 22, 0), end: stamp(2024, 3, 1, 3, 5) }];
    let out = calendar_lines(Mode::Ends, &recs);
    assert_eq!(out.len(), 29);
    assert_eq!(out[28], "27:05");
}

#[test]
fn leap_second_is_not_a_timestamp() {
    let e = process_csv("2016-12-31 23:00:00,2016-12-31 23:59:60", None).unwrap_err();
    assert_eq!(e.kind, ErrorKind::TimestampFormat);
}
