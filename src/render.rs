//! Rendering a report as text lines: the total worked hours, or one line a
//! day of the month for start or end times.

use crate::cli::Mode;
use crate::report::{DayRecord, ErrorKind, ReportError};
use crate::stamp::{day_number, days_before_month, days_before_year, is_leap, month_len, nb_days_in_month, Stamp};
use vstd::prelude::*;

verus! {

pub open spec fn digit(d: int) -> char {
    if d == 0 {
        '0'
    } else if d == 1 {
        '1'
    } else if d == 2 {
        '2'
    } else if d == 3 {
        '3'
    } else if d == 4 {
        '4'
    } else if d == 5 {
        '5'
    } else if d == 6 {
        '6'
    } else if d == 7 {
        '7'
    } else if d == 8 {
        '8'
    } else {
        '9'
    }
}

/// `n` (below 100) as two digits.
pub open spec fn two_digits(n: int) -> Seq<char> {
    seq![digit(n / 10), digit(n % 10)]
}

/// `n` in decimal, without leading zeros.
pub open spec fn decimal(n: nat) -> Seq<char>
    decreases n,
{
    if n < 10 {
        seq![digit(n as int)]
    } else {
        decimal(n / 10) + seq![digit((n % 10) as int)]
    }
}

/// `HH:MM`.
pub open spec fn clock(h: int, m: int) -> Seq<char> {
    two_digits(h) + seq![':'] + two_digits(m)
}

/// The line of the total: whole hours, then minutes past the hour.
pub open spec fn total_text(total: nat) -> Seq<char> {
    "Total worked hours: "@ + decimal(total / 3600) + seq![':'] + two_digits(
        ((total / 60) % 60) as int,
    )
}

/// `k` placeholder lines, none where `k` is not positive.
pub open spec fn zeros(k: int) -> Seq<Seq<char>> {
    Seq::new(if k > 0 { k as nat } else { 0 }, |i: int| "00:00"@)
}

/// Calendar lines of `items` (day, text), after day `prev`, padded up to day `n`.
pub open spec fn fill(items: Seq<(int, Seq<char>)>, prev: int, n: int) -> Seq<Seq<char>>
    decreases items.len(),
{
    if items.len() == 0 {
        zeros(n - prev)
    } else {
        zeros(items[0].0 - prev - 1) + seq![items[0].1] + fill(items.drop_first(), items[0].0, n)
    }
}

/// A start time: its day and its clock time.
pub open spec fn start_item(t: Stamp) -> (int, Seq<char>) {
    (t.day as int, clock(t.hour as int, t.minute as int))
}

/// The calendar date before the date of `t`, at the same time of day.
pub open spec fn previous_date(t: Stamp) -> Stamp {
    if t.day > 1 {
        Stamp { day: (t.day - 1) as u32, ..t }
    } else if t.month > 1 {
        Stamp {
            month: (t.month - 1) as u32,
            day: month_len(t.year as int, t.month - 1) as u32,
            ..t
        }
    } else {
        Stamp { year: (t.year - 1) as i32, month: 12, day: 31, ..t }
    }
}

/// An end time: until 6 o'clock in the morning it counts for the calendar
/// day before, 24 hours later.
pub open spec fn end_item(t: Stamp) -> (int, Seq<char>) {
    if t.hour > 6 {
        (t.day as int, clock(t.hour as int, t.minute as int))
    } else {
        (previous_date(t).day as int, clock(t.hour + 24, t.minute as int))
    }
}

/// The calendar items of `records` in `mode`.
pub open spec fn day_items(mode: Mode, records: Seq<DayRecord>) -> Seq<(int, Seq<char>)> {
    if mode == Mode::Ends {
        records.map_values(|r: DayRecord| end_item(r.end))
    } else {
        records.map_values(|r: DayRecord| start_item(r.start))
    }
}

/// Days of the month of the first record.
pub open spec fn first_month_len(records: Seq<DayRecord>) -> int {
    month_len(records[0].start.year as int, records[0].start.month as int)
}

/// The lines of a report in `mode`.
pub open spec fn report_text(mode: Mode, records: Seq<DayRecord>, total: nat) -> Result<
    Seq<Seq<char>>,
    ErrorKind,
> {
    if mode == Mode::Total {
        Ok(seq![total_text(total)])
    } else if records.len() == 0 {
        Err(ErrorKind::NoEntries)
    } else {
        Ok(fill(day_items(mode, records), 0, first_month_len(records)))
    }
}

pub open spec fn texts(v: Seq<String>) -> Seq<Seq<char>> {
    v.map_values(|s: String| s@)
}

fn digit_str(d: u32) -> (r: &'static str)
    requires
        d < 10,
    ensures
        r@ == seq![digit(d as int)],
{
    match d {
        0 => {
            proof {
                reveal_strlit("0");
            }
            "0"
        },
        1 => {
            proof {
                reveal_strlit("1");
            }
            "1"
        },
        2 => {
            proof {
                reveal_strlit("2");
            }
            "2"
        },
        3 => {
            proof {
                reveal_strlit("3");
            }
            "3"
        },
        4 => {
            proof {
                reveal_strlit("4");
            }
            "4"
        },
        5 => {
            proof {
                reveal_strlit("5");
            }
            "5"
        },
        6 => {
            proof {
                reveal_strlit("6");
            }
            "6"
        },
        7 => {
            proof {
                reveal_strlit("7");
            }
            "7"
        },
        8 => {
            proof {
                reveal_strlit("8");
            }
            "8"
        },
        _ => {
            proof {
                reveal_strlit("9");
            }
            "9"
        },
    }
}

fn append_two_digits(s: &mut String, n: u32)
    requires
        n < 100,
    ensures
        final(s)@ == old(s)@ + two_digits(n as int),
{
    s.append(digit_str(n / 10));
    s.append(digit_str(n % 10));
    proof {
        assert(final(s)@ =~= old(s)@ + two_digits(n as int));
    }
}

fn append_decimal(s: &mut String, n: u128)
    ensures
        final(s)@ == old(s)@ + decimal(n as nat),
    decreases n,
{
    if n >= 10 {
        append_decimal(s, n / 10);
    }
    s.append(digit_str((n % 10) as u32));
    proof {
        assert(final(s)@ =~= old(s)@ + decimal(n as nat));
    }
}

/// `HH:MM`, for an hour and a minute below 100.
pub fn clock_text(h: u32, m: u32) -> (r: String)
    requires
        h < 100,
        m < 100,
    ensures
        r@ == clock(h as int, m as int),
{
    let mut s = String::new();
    append_two_digits(&mut s, h);
    s.append(":");
    proof {
        reveal_strlit(":");
    }
    append_two_digits(&mut s, m);
    proof {
        assert(s@ =~= clock(h as int, m as int));
    }
    s
}

/// The total line: `Total worked hours: H:MM`, with the whole hours and the
/// minutes past the hour of `total_seconds`.
pub fn total_line(total_seconds: u128) -> (r: String)
    ensures
        r@ == total_text(total_seconds as nat),
{
    let mut s = "Total worked hours: ".to_owned();
    append_decimal(&mut s, total_seconds / 3600);
    s.append(":");
    proof {
        reveal_strlit(":");
    }
    append_two_digits(&mut s, ((total_seconds / 60) % 60) as u32);
    proof {
        assert(s@ =~= total_text(total_seconds as nat));
    }
    s
}

fn item_of(mode: Mode, r: &DayRecord) -> (res: (u32, String))
    requires
        r.wf(),
    ensures
        (res.0 as int, res.1@) == (if mode == Mode::Ends {
            end_item(r.end)
        } else {
            start_item(r.start)
        }),
        res.0 <= 31,
{
    if mode == Mode::Ends {
        let e = r.end;
        if e.hour > 6 {
            (e.day, clock_text(e.hour, e.minute))
        } else if e.day > 1 {
            (e.day - 1, clock_text(e.hour + 24, e.minute))
        } else if e.month > 1 {
            (nb_days_in_month(e.year, e.month - 1), clock_text(e.hour + 24, e.minute))
        } else {
            (31, clock_text(e.hour + 24, e.minute))
        }
    } else {
        (r.start.day, clock_text(r.start.hour, r.start.minute))
    }
}

/// Lines of the calendar of `records` in `mode`: one `HH:MM` line per record,
/// with `00:00` for each day skipped, up to the last day of the month of the
/// first record.
pub fn calendar_lines(mode: Mode, records: &Vec<DayRecord>) -> (r: Vec<String>)
    requires
        records@.len() > 0,
        forall|k: int| 0 <= k < records@.len() ==> (#[trigger] records@[k]).wf(),
    ensures
        texts(r@) == fill(day_items(mode, records@), 0, first_month_len(records@)),
{
    let ghost items = day_items(mode, records@);
    let ghost target = fill(items, 0, first_month_len(records@));
    let n = nb_days_in_month(records[0].start.year, records[0].start.month);
    let mut out: Vec<String> = Vec::new();
    let mut prev: u32 = 0;
    let mut idx: usize = 0;
    proof {
        assert(items.subrange(0, items.len() as int) =~= items);
        assert(texts(out@) + target =~= target);
    }
    while idx < records.len()
        invariant
            items == day_items(mode, records@),
            items.len() == records@.len(),
            target == fill(items, 0, n as int),
            n == first_month_len(records@),
            forall|k: int| 0 <= k < records@.len() ==> (#[trigger] records@[k]).wf(),
            idx <= records@.len(),
            prev <= 31,
            texts(out@) + fill(items.subrange(idx as int, items.len() as int), prev as int, n as int)
                == target,
        decreases records@.len() - idx,
    {
        let (day, label) = item_of(mode, &records[idx]);
        let ghost rest = items.subrange(idx + 1, items.len() as int);
        proof {
            assert(items.subrange(idx as int, items.len() as int).drop_first() =~= rest);
            assert(items[idx as int] == (day as int, label@));
        }
        while day > prev + 1
            invariant
                prev <= 31,
                day <= 31,
                texts(out@) + zeros(day - prev - 1) + seq![label@] + fill(rest, day as int, n as int)
                    == target,
            decreases day - prev,
        {
            let ghost before = texts(out@);
            out.push("00:00".to_owned());
            prev = prev + 1;
            proof {
                assert(texts(out@) =~= before + seq!["00:00"@]);
                assert(seq!["00:00"@] + zeros(day - prev - 1) =~= zeros(day - (prev - 1) - 1));
                assert(texts(out@) + zeros(day - prev - 1) =~= before + zeros(day - (prev - 1)
                    - 1));
            }
        }
        let ghost before = texts(out@);
        proof {
            assert(zeros(day - prev - 1) =~= Seq::<Seq<char>>::empty());
        }
        out.push(label);
        prev = day;
        idx = idx + 1;
        proof {
            assert(texts(out@) =~= before + seq![label@]);
            assert(texts(out@) + fill(rest, prev as int, n as int) =~= before + zeros(0) + seq![
                label@,
            ] + fill(rest, prev as int, n as int));
        }
    }
    proof {
        assert(items.subrange(idx as int, items.len() as int) =~= Seq::<(int, Seq<char>)>::empty());
    }
    while n > prev
        invariant
            prev <= 31,
            n <= 31,
            texts(out@) + zeros(n - prev) == target,
        decreases n - prev,
    {
        let ghost before = texts(out@);
        out.push("00:00".to_owned());
        prev = prev + 1;
        proof {
            assert(texts(out@) =~= before + seq!["00:00"@]);
            assert(seq!["00:00"@] + zeros(n - prev) =~= zeros(n - (prev - 1)));
            assert(texts(out@) + zeros(n - prev) =~= before + zeros(n - (prev - 1)));
        }
    }
    proof {
        assert(zeros(n - prev) =~= Seq::<Seq<char>>::empty());
        assert(texts(out@) + zeros(n - prev) =~= texts(out@));
    }
    out
}

/// The lines of a report: the total line, or the calendar of start or end
/// times, which a report of no records cannot give.
pub fn report_lines(mode: Mode, records: &Vec<DayRecord>, total_seconds: u128) -> (r: Result<
    Vec<String>,
    ReportError,
>)
    requires
        forall|k: int| 0 <= k < records@.len() ==> (#[trigger] records@[k]).wf(),
    ensures
        match report_text(mode, records@, total_seconds as nat) {
            Ok(ls) => r matches Ok(v) && texts(v@) == ls,
            Err(kind) => r matches Err(e) && e@ == (kind, Seq::<char>::empty()),
        },
{
    if mode == Mode::Total {
        let v = vec![total_line(total_seconds)];
        proof {
            assert(texts(v@) =~= seq![total_text(total_seconds as nat)]);
        }
        Ok(v)
    } else if records.len() == 0 {
        Err(ReportError { kind: ErrorKind::NoEntries, line: String::new() })
    } else {
        Ok(calendar_lines(mode, records))
    }
}

proof fn lemma_fill_len(items: Seq<(int, Seq<char>)>, prev: int, n: int)
    requires
        forall|k: int| 0 <= k < items.len() ==> prev < #[trigger] items[k].0 <= n,
        forall|k: int, l: int| 0 <= k < l < items.len() ==> #[trigger] items[k].0 < #[trigger] items[l].0,
        prev <= n,
    ensures
        fill(items, prev, n).len() == n - prev,
    decreases items.len(),
{
    if items.len() > 0 {
        let rest = items.drop_first();
        assert forall|k: int, l: int| 0 <= k < l < rest.len() implies #[trigger] rest[k].0
            < #[trigger] rest[l].0 by {
            assert(rest[k] == items[k + 1] && rest[l] == items[l + 1]);
        }
        assert forall|k: int| 0 <= k < rest.len() implies items[0].0 < #[trigger] rest[k].0 <= n by {
            assert(rest[k] == items[k + 1]);
        }
        lemma_fill_len(rest, items[0].0, n);
    }
}

/// A calendar of start or end times has one line for each day of the month
/// of the first record, when the days of its records rise strictly and stay
/// within that month.
pub proof fn lemma_calendar_length(mode: Mode, records: Seq<DayRecord>)
    requires
        mode != Mode::Total,
        records.len() > 0,
        records[0].start.wf(),
        forall|k: int|
            0 <= k < records.len() ==> 1 <= #[trigger] day_items(mode, records)[k].0
                <= first_month_len(records),
        forall|k: int, l: int|
            0 <= k < l < records.len() ==> #[trigger] day_items(mode, records)[k].0
                < #[trigger] day_items(mode, records)[l].0,
    ensures
        report_text(mode, records, 0) is Ok,
        forall|total: nat| #[trigger]
            report_text(mode, records, total)->Ok_0.len() == first_month_len(records),
{
    lemma_fill_len(day_items(mode, records), 0, first_month_len(records));
}

proof fn lemma_year_length(y: int)
    ensures
        days_before_year(y + 1) - days_before_year(y) == if is_leap(y) { 366int } else { 365int },
{
    assert((y + 4) / 4 - (y + 3) / 4 == if y % 4 == 0 { 1int } else { 0int }) by (nonlinear_arith);
    assert((y + 100) / 100 - (y + 99) / 100 == if y % 100 == 0 { 1int } else { 0int }) by (nonlinear_arith);
    assert((y + 400) / 400 - (y + 399) / 400 == if y % 400 == 0 { 1int } else { 0int }) by (nonlinear_arith);
    if y % 400 == 0 {
        assert(y % 100 == 0 && y % 4 == 0) by (nonlinear_arith)
            requires
                y % 400 == 0,
        ;
    } else if y % 100 == 0 {
        assert(y % 4 == 0) by (nonlinear_arith)
            requires
                y % 100 == 0,
        ;
    }
}

/// `previous_date(t)` is the calendar day just before that of `t`.
pub proof fn lemma_previous_date(t: Stamp)
    requires
        t.wf(),
        t.year > crate::stamp::MIN_YEAR,
    ensures
        previous_date(t).wf(),
        day_number(previous_date(t)) == day_number(t) - 1,
{
    let p = previous_date(t);
    if t.day == 1 && t.month == 1 {
        lemma_year_length(t.year - 1);
        assert(days_before_month(t.year - 1, 12) == if is_leap(t.year - 1) { 335int } else { 334int }) by {
            reveal_with_fuel(days_before_month, 12);
        }
        assert(days_before_month(t.year as int, 1) == 0);
    }
}

/// An end time up to 6 o'clock counts for the calendar day before, its hour
/// shown 24 hours later; a later one counts for its own day as it is.
pub proof fn lemma_end_rollover(t: Stamp)
    requires
        t.wf(),
        t.year > crate::stamp::MIN_YEAR,
    ensures
        t.hour <= 6 ==> end_item(t) == (previous_date(t).day as int, clock(
            t.hour + 24,
            t.minute as int,
        )) && day_number(previous_date(t)) == day_number(t) - 1,
        t.hour > 6 ==> end_item(t) == (t.day as int, clock(t.hour as int, t.minute as int)),
        t.hour == 2 && t.minute == 15 ==> end_item(t).1 == "26:15"@,
        t.hour == 7 && t.minute == 0 ==> end_item(t) == (t.day as int, "07:00"@),
{
    lemma_previous_date(t);
    reveal_strlit("26:15");
    reveal_strlit("07:00");
    assert(clock(26, 15) =~= "26:15"@);
    assert(clock(7, 0) =~= "07:00"@);
}

} // verus!
