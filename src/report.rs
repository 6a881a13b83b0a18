//! Parsing a work log into per-day records and a total duration.

use crate::stamp::{
    instant, max_instant, min_instant, parse_stamp, parsed_stamp,
    seconds_between, shift_stamp, Stamp, SECONDS_PER_DAY,
};
use vstd::prelude::*;

verus! {

/// What went wrong with a log.
#[derive(Clone, Copy, Debug, PartialEq, Eq, Structural)]
pub enum ErrorKind {
    /// A line that is not two comma-separated fields.
    MalformedLine,
    /// A field that is not a `YYYY-MM-DD HH:MM:SS` timestamp, or is a leap second.
    TimestampFormat,
    /// An entry that ends before it starts.
    NegativeDuration,
    /// An entry longer than a day.
    ExcessiveDuration,
    /// A merged day whose end leaves the representable range of dates.
    OutOfRange,
    /// A calendar view asked of a log with no entries.
    NoEntries,
}

/// An error, with the text of the offending line (empty where no line is at fault).
#[derive(Debug)]
pub struct ReportError {
    pub kind: ErrorKind,
    pub line: String,
}

impl View for ReportError {
    type V = (ErrorKind, Seq<char>);

    open spec fn view(&self) -> (ErrorKind, Seq<char>) {
        (self.kind, self.line@)
    }
}

/// The span worked on one calendar day: the start of its first session and
/// the end, pushed later by the length of each further session of that day.
#[derive(Clone, Copy, Debug, PartialEq, Eq, Structural)]
pub struct DayRecord {
    pub start: Stamp,
    pub end: Stamp,
}

/// A day record as instants: its start, and its end in seconds.
pub struct RecordView {
    pub start: Stamp,
    pub end: int,
}

impl View for DayRecord {
    type V = RecordView;

    open spec fn view(&self) -> RecordView {
        RecordView { start: self.start, end: instant(self.end) }
    }
}

impl DayRecord {
    pub open spec fn wf(self) -> bool {
        self.start.wf() && self.end.wf()
    }
}

/// The state of a report as the log is read: the day records, the total
/// duration in seconds and the day of month of the last entry kept.
pub struct Tally {
    pub records: Seq<RecordView>,
    pub total: int,
    pub prev_day: Option<u32>,
}

/// The report of a log read so far.
#[derive(Debug)]
pub struct Report {
    pub records: Vec<DayRecord>,
    pub total_seconds: u128,
    pub prev_day: Option<u32>,
}

impl View for Report {
    type V = Tally;

    open spec fn view(&self) -> Tally {
        Tally {
            records: self.records@.map_values(|r: DayRecord| r@),
            total: self.total_seconds as int,
            prev_day: self.prev_day,
        }
    }
}

pub open spec fn empty_tally() -> Tally {
    Tally { records: Seq::empty(), total: 0, prev_day: None }
}

/// Whether an entry starting at `start` passes the month filter.
pub open spec fn month_matches(start: Stamp, target_month: Option<u8>) -> bool {
    match target_month {
        Some(m) => start.month == m as u32,
        None => true,
    }
}

/// Adds the entry `start`-`end` of log line `line` to `t`.
pub open spec fn entry_step(
    t: Tally,
    start: Stamp,
    end: Stamp,
    target_month: Option<u8>,
    line: Seq<char>,
) -> Result<Tally, (ErrorKind, Seq<char>)> {
    let d = instant(end) - instant(start);
    if !month_matches(start, target_month) {
        Ok(t)
    } else if d < 0 {
        Err((ErrorKind::NegativeDuration, line))
    } else if d > 86400 {
        Err((ErrorKind::ExcessiveDuration, line))
    } else if t.prev_day == Some(start.day) && t.records.len() > 0 {
        let last = t.records.last();
        let new_end = last.end + d;
        if min_instant() <= new_end <= max_instant() {
            Ok(
                Tally {
                    records: t.records.update(
                        t.records.len() - 1,
                        RecordView { start: last.start, end: new_end },
                    ),
                    total: t.total + d,
                    prev_day: Some(start.day),
                },
            )
        } else {
            Err((ErrorKind::OutOfRange, line))
        }
    } else {
        Ok(
            Tally {
                records: t.records.push(RecordView { start, end: instant(end) }),
                total: t.total + d,
                prev_day: Some(start.day),
            },
        )
    }
}

/// Number of characters from index `i` of `s` to the next `c`, or to the end.
pub open spec fn dist_to(s: Seq<char>, i: int, c: char) -> nat
    decreases s.len() - i,
{
    if i < 0 || i >= s.len() || s[i] == c {
        0
    } else {
        1 + dist_to(s, i + 1, c)
    }
}

/// The two fields of a line holding exactly one comma.
pub open spec fn fields(line: Seq<char>) -> Option<(Seq<char>, Seq<char>)> {
    let p = dist_to(line, 0, ',') as int;
    if p < line.len() && dist_to(line, p + 1, ',') == line.len() - p - 1 {
        Some((line.subrange(0, p), line.subrange(p + 1, line.len() as int)))
    } else {
        None
    }
}

/// The entry of a non-empty log line, or the error it gives; a leap second
/// is no valid timestamp here.
pub open spec fn parse_line(line: Seq<char>) -> Result<(Stamp, Stamp), (ErrorKind, Seq<char>)> {
    match fields(line) {
        None => Err((ErrorKind::MalformedLine, line)),
        Some((a, b)) => match (parsed_stamp(a), parsed_stamp(b)) {
            (Some((x, 0)), Some((y, 0))) => Ok((x, y)),
            _ => Err((ErrorKind::TimestampFormat, line)),
        },
    }
}

/// Adds log line `line` to `t`; empty lines are skipped.
pub open spec fn line_step(t: Tally, line: Seq<char>, target_month: Option<u8>) -> Result<
    Tally,
    (ErrorKind, Seq<char>),
> {
    if line.len() == 0 {
        Ok(t)
    } else {
        match parse_line(line) {
            Err(e) => Err(e),
            Ok((x, y)) => entry_step(t, x, y, target_month, line),
        }
    }
}

/// The line of `s` that starts at `i`, without its line ending.
pub open spec fn line_at(s: Seq<char>, i: int) -> Seq<char> {
    let j = i + dist_to(s, i, '\n');
    if j < s.len() && j > i && s[j - 1] == '\r' {
        s.subrange(i, j - 1)
    } else {
        s.subrange(i, j)
    }
}

/// Reads the lines of `s` from index `i` on into `t`, stopping at the first error.
pub open spec fn run(s: Seq<char>, i: int, t: Tally, target_month: Option<u8>) -> Result<
    Tally,
    (ErrorKind, Seq<char>),
>
    decreases s.len() - i,
{
    if i < 0 || i >= s.len() {
        Ok(t)
    } else {
        match line_step(t, line_at(s, i), target_month) {
            Err(e) => Err(e),
            Ok(t2) => if i + dist_to(s, i, '\n') >= s.len() {
                Ok(t2)
            } else {
                run(s, i + dist_to(s, i, '\n') + 1, t2, target_month)
            },
        }
    }
}

/// The report of the whole log text `s`.
pub open spec fn report_of(s: Seq<char>, target_month: Option<u8>) -> Result<
    Tally,
    (ErrorKind, Seq<char>),
> {
    run(s, 0, empty_tally(), target_month)
}

/// Index of the first `c` in `s` at or after `i`, or `s@.len()`.
fn find_char(s: &str, i: usize, c: char) -> (r: usize)
    requires
        i <= s@.len(),
    ensures
        r == i + dist_to(s@, i as int, c),
        r <= s@.len(),
{
    let n = s.unicode_len();
    let mut k = i;
    while k < n && s.get_char(k) != c
        invariant
            i <= k <= n,
            n == s@.len(),
            dist_to(s@, i as int, c) == (k - i) + dist_to(s@, k as int, c),
        decreases n - k,
    {
        k = k + 1;
    }
    k
}

impl ReportError {
    fn at_line(kind: ErrorKind, line: &str) -> (r: ReportError)
        ensures
            r@ == (kind, line@),
    {
        ReportError { kind, line: line.to_owned() }
    }
}

impl Report {
    pub open spec fn wf(&self) -> bool {
        &&& forall|k: int| 0 <= k < self.records@.len() ==> (#[trigger] self.records@[k]).wf()
        &&& self.prev_day is Some ==> self.records@.len() > 0
    }

    /// A report of no entries.
    pub fn new() -> (r: Report)
        ensures
            r.wf(),
            r@ == empty_tally(),
    {
        let r = Report { records: Vec::new(), total_seconds: 0, prev_day: None };
        proof {
            assert(r@.records =~= Seq::<RecordView>::empty());
        }
        r
    }

    /// Adds the entry `start`-`end`, read from log line `line`.
    pub fn add_entry(
        &mut self,
        start: Stamp,
        end: Stamp,
        target_month: Option<u8>,
        line: &str,
    ) -> (r: Result<(), ReportError>)
        requires
            old(self).wf(),
            start.wf(),
            end.wf(),
            old(self).total_seconds + 86400 <= u128::MAX,
        ensures
            final(self).wf(),
            match entry_step(old(self)@, start, end, target_month, line@) {
                Ok(t) => r is Ok && final(self)@ == t,
                Err(e) => r matches Err(x) && x@ == e,
            },
            final(self).total_seconds <= old(self).total_seconds + 86400,
    {
        if let Some(m) = target_month {
            if start.month != m as u32 {
                return Ok(());
            }
        }
        let d = seconds_between(&start, &end);
        if d < 0 {
            return Err(ReportError::at_line(ErrorKind::NegativeDuration, line));
        }
        if d > SECONDS_PER_DAY {
            return Err(ReportError::at_line(ErrorKind::ExcessiveDuration, line));
        }
        let n = self.records.len();
        if self.prev_day == Some(start.day) && n > 0 {
            let last = self.records[n - 1];
            match shift_stamp(&last.end, d) {
                None => {
                    return Err(ReportError::at_line(ErrorKind::OutOfRange, line));
                },
                Some(e) => {
                    let ghost before = self@;
                    self.records.set(n - 1, DayRecord { start: last.start, end: e });
                    self.total_seconds = self.total_seconds + d as u128;
                    self.prev_day = Some(start.day);
                    proof {
                        let t = entry_step(before, start, end, target_month, line@);
                        assert(self@.records =~= t->Ok_0.records);
                    }
                },
            }
        } else {
            let ghost before = self@;
            self.records.push(DayRecord { start, end });
            self.total_seconds = self.total_seconds + d as u128;
            self.prev_day = Some(start.day);
            proof {
                let t = entry_step(before, start, end, target_month, line@);
                assert(self@.records =~= t->Ok_0.records);
            }
        }
        Ok(())
    }

    /// Adds one line of a log: empty lines are skipped, others must be two
    /// comma-separated timestamps.
    pub fn add_line(&mut self, line: &str, target_month: Option<u8>) -> (r: Result<(), ReportError>)
        requires
            old(self).wf(),
            old(self).total_seconds + 86400 <= u128::MAX,
        ensures
            final(self).wf(),
            match line_step(old(self)@, line@, target_month) {
                Ok(t) => r is Ok && final(self)@ == t,
                Err(e) => r matches Err(x) && x@ == e,
            },
            final(self).total_seconds <= old(self).total_seconds + 86400,
    {
        let n = line.unicode_len();
        if n == 0 {
            return Ok(());
        }
        let p = find_char(line, 0, ',');
        if p == n {
            return Err(ReportError::at_line(ErrorKind::MalformedLine, line));
        }
        let q = find_char(line, p + 1, ',');
        if q != n {
            return Err(ReportError::at_line(ErrorKind::MalformedLine, line));
        }
        let a = line.substring_char(0, p);
        let b = line.substring_char(p + 1, n);
        let x = parse_stamp(a);
        let y = parse_stamp(b);
        match (x, y) {
            (Some((start, 0)), Some((end, 0))) => self.add_entry(start, end, target_month, line),
            _ => Err(ReportError::at_line(ErrorKind::TimestampFormat, line)),
        }
    }
}

/// Reads a whole log: one entry per line, as `start,end` timestamps in the
/// format `YYYY-MM-DD HH:MM:SS`. With a target month, entries that start in
/// another month are left out. The first faulty line aborts the reading.
pub fn process_csv(text: &str, target_month: Option<u8>) -> (r: Result<Report, ReportError>)
    ensures
        match report_of(text@, target_month) {
            Ok(t) => r matches Ok(rep) && rep@ == t && rep.wf(),
            Err(e) => r matches Err(x) && x@ == e,
        },
{
    let n = text.unicode_len();
    let mut rep = Report::new();
    let mut i: usize = 0;
    while i < n
        invariant
            n == text@.len(),
            i <= n,
            rep.wf(),
            rep.total_seconds <= 86400 * i,
            report_of(text@, target_month) == run(text@, i as int, rep@, target_month),
        decreases n - i,
    {
        let j = find_char(text, i, '\n');
        let hi = if j < n && j > i && text.get_char(j - 1) == '\r' {
            j - 1
        } else {
            j
        };
        let line = text.substring_char(i, hi);
        proof {
            assert(line@ == line_at(text@, i as int));
        }
        match rep.add_line(line, target_month) {
            Err(e) => {
                return Err(e);
            },
            Ok(()) => {},
        }
        if j >= n {
            return Ok(rep);
        }
        i = j + 1;
    }
    Ok(rep)
}

/// The entries of the non-empty, well-formed lines of `s` from index `i` on.
pub open spec fn entries_from(s: Seq<char>, i: int) -> Seq<(Stamp, Stamp)>
    decreases s.len() - i,
{
    if i < 0 || i >= s.len() {
        Seq::empty()
    } else {
        let l = line_at(s, i);
        let here = if l.len() > 0 && parse_line(l) is Ok {
            seq![parse_line(l)->Ok_0]
        } else {
            Seq::empty()
        };
        if i + dist_to(s, i, '\n') >= s.len() {
            here
        } else {
            here + entries_from(s, i + dist_to(s, i, '\n') + 1)
        }
    }
}

/// Sum of the durations, in seconds, of the entries of `es` that pass the month filter.
pub open spec fn matched_total(es: Seq<(Stamp, Stamp)>, target_month: Option<u8>) -> int
    decreases es.len(),
{
    if es.len() == 0 {
        0
    } else {
        (if month_matches(es[0].0, target_month) {
            instant(es[0].1) - instant(es[0].0)
        } else {
            0
        }) + matched_total(es.drop_first(), target_month)
    }
}

/// Every record starts in the target month.
pub open spec fn all_in_month(rs: Seq<RecordView>, target_month: Option<u8>) -> bool {
    forall|k: int| 0 <= k < rs.len() ==> month_matches(#[trigger] rs[k].start, target_month)
}

proof fn lemma_run_total(s: Seq<char>, i: int, t: Tally, target_month: Option<u8>)
    requires
        run(s, i, t, target_month) is Ok,
    ensures
        run(s, i, t, target_month)->Ok_0.total == t.total + matched_total(
            entries_from(s, i),
            target_month,
        ),
    decreases s.len() - i,
{
    if 0 <= i < s.len() {
        let l = line_at(s, i);
        let t2 = line_step(t, l, target_month)->Ok_0;
        let j = i + dist_to(s, i, '\n');
        let rest = if j >= s.len() {
            Seq::<(Stamp, Stamp)>::empty()
        } else {
            entries_from(s, j + 1)
        };
        if j < s.len() {
            lemma_run_total(s, j + 1, t2, target_month);
        }
        if l.len() > 0 && parse_line(l) is Ok {
            let e = parse_line(l)->Ok_0;
            assert((seq![e] + rest).drop_first() =~= rest);
            assert(entries_from(s, i) == seq![e] + rest);
            assert(matched_total(seq![e] + rest, target_month) == (if month_matches(
                e.0,
                target_month,
            ) {
                instant(e.1) - instant(e.0)
            } else {
                0
            }) + matched_total(rest, target_month));
        } else {
            assert(Seq::<(Stamp, Stamp)>::empty() + rest =~= rest);
            assert(entries_from(s, i) == rest);
        }
    }
}

proof fn lemma_run_in_month(s: Seq<char>, i: int, t: Tally, target_month: Option<u8>)
    requires
        run(s, i, t, target_month) is Ok,
        all_in_month(t.records, target_month),
    ensures
        all_in_month(run(s, i, t, target_month)->Ok_0.records, target_month),
    decreases s.len() - i,
{
    if 0 <= i < s.len() {
        let l = line_at(s, i);
        let t2 = line_step(t, l, target_month)->Ok_0;
        let j = i + dist_to(s, i, '\n');
        assert(all_in_month(t2.records, target_month)) by {
            if l.len() > 0 {
                let e = parse_line(l)->Ok_0;
                if month_matches(e.0, target_month) && t.prev_day == Some(e.0.day)
                    && t.records.len() > 0 {
                    assert forall|k: int| 0 <= k < t2.records.len() implies month_matches(
                        #[trigger] t2.records[k].start,
                        target_month,
                    ) by {
                        assert(month_matches(t.records[k].start, target_month));
                    }
                } else if month_matches(e.0, target_month) {
                    assert forall|k: int| 0 <= k < t2.records.len() implies month_matches(
                        #[trigger] t2.records[k].start,
                        target_month,
                    ) by {
                        if k < t.records.len() {
                            assert(month_matches(t.records[k].start, target_month));
                        }
                    }
                }
            }
        }
        if j < s.len() {
            lemma_run_in_month(s, j + 1, t2, target_month);
        }
    }
}

/// The total duration of a log that reads without error is the sum of the
/// durations of its entries that pass the month filter, however they merge
/// into day records.
pub proof fn lemma_total_is_sum_of_entries(s: Seq<char>, target_month: Option<u8>)
    requires
        report_of(s, target_month) is Ok,
    ensures
        report_of(s, target_month)->Ok_0.total == matched_total(entries_from(s, 0), target_month),
{
    lemma_run_total(s, 0, empty_tally(), target_month);
}

/// Reading the same log twice gives the same records and total.
pub proof fn lemma_report_deterministic(s1: Seq<char>, s2: Seq<char>, target_month: Option<u8>)
    requires
        s1 == s2,
    ensures
        report_of(s1, target_month) == report_of(s2, target_month),
{
}

/// With a target month, every record of a log that reads without error
/// starts in that month, and entries of other months add nothing to the
/// total.
pub proof fn lemma_month_filter(s: Seq<char>, m: u8)
    requires
        report_of(s, Some(m)) is Ok,
    ensures
        forall|k: int|
            0 <= k < report_of(s, Some(m))->Ok_0.records.len() ==> (#[trigger] report_of(
                s,
                Some(m),
            )->Ok_0.records[k]).start.month == m as u32,
        report_of(s, Some(m))->Ok_0.total == matched_total(entries_from(s, 0), Some(m)),
{
    lemma_run_in_month(s, 0, empty_tally(), Some(m));
    lemma_run_total(s, 0, empty_tally(), Some(m));
    let rs = report_of(s, Some(m))->Ok_0.records;
    assert forall|k: int| 0 <= k < rs.len() implies (#[trigger] rs[k]).start.month == m as u32 by {
        assert(month_matches(rs[k].start, Some(m)));
    }
}

/// Adds the entries `es` to `t` in order, as their log lines would.
pub open spec fn fold_entries(t: Tally, es: Seq<(Stamp, Stamp)>, target_month: Option<u8>) -> Result<
    Tally,
    ErrorKind,
>
    decreases es.len(),
{
    if es.len() == 0 {
        Ok(t)
    } else {
        match entry_step(t, es[0].0, es[0].1, target_month, Seq::empty()) {
            Err(e) => Err(e.0),
            Ok(t2) => fold_entries(t2, es.drop_first(), target_month),
        }
    }
}

/// The entries of `es` that start in month `m`, in order.
pub open spec fn in_month(es: Seq<(Stamp, Stamp)>, m: u8) -> Seq<(Stamp, Stamp)>
    decreases es.len(),
{
    if es.len() == 0 {
        es
    } else {
        (if es[0].0.month == m as u32 {
            seq![es[0]]
        } else {
            Seq::empty()
        }) + in_month(es.drop_first(), m)
    }
}

proof fn lemma_fold_cons(t: Tally, e: (Stamp, Stamp), rest: Seq<(Stamp, Stamp)>, target_month: Option<u8>)
    ensures
        fold_entries(t, seq![e] + rest, target_month) == match entry_step(
            t,
            e.0,
            e.1,
            target_month,
            Seq::empty(),
        ) {
            Err(x) => Err(x.0),
            Ok(t2) => fold_entries(t2, rest, target_month),
        },
{
    assert((seq![e] + rest).drop_first() =~= rest);
    assert((seq![e] + rest)[0] == e);
}

proof fn lemma_fold_concat(t: Tally, x: Seq<(Stamp, Stamp)>, y: Seq<(Stamp, Stamp)>, target_month: Option<u8>)
    ensures
        fold_entries(t, x + y, target_month) == match fold_entries(t, x, target_month) {
            Err(k) => Err(k),
            Ok(t1) => fold_entries(t1, y, target_month),
        },
    decreases x.len(),
{
    if x.len() == 0 {
        assert(x + y =~= y);
    } else {
        assert(x + y =~= seq![x[0]] + (x.drop_first() + y));
        assert(x =~= seq![x[0]] + x.drop_first());
        lemma_fold_cons(t, x[0], x.drop_first() + y, target_month);
        lemma_fold_cons(t, x[0], x.drop_first(), target_month);
        if let Ok(t2) = entry_step(t, x[0].0, x[0].1, target_month, Seq::empty()) {
            lemma_fold_concat(t2, x.drop_first(), y, target_month);
        }
    }
}

proof fn lemma_run_is_fold(s: Seq<char>, i: int, t: Tally, target_month: Option<u8>)
    requires
        run(s, i, t, target_month) is Ok,
    ensures
        fold_entries(t, entries_from(s, i), target_month) == Ok::<Tally, ErrorKind>(
            run(s, i, t, target_month)->Ok_0,
        ),
    decreases s.len() - i,
{
    if 0 <= i < s.len() {
        let l = line_at(s, i);
        let t2 = line_step(t, l, target_month)->Ok_0;
        let j = i + dist_to(s, i, '\n');
        let rest = if j >= s.len() {
            Seq::<(Stamp, Stamp)>::empty()
        } else {
            entries_from(s, j + 1)
        };
        if j < s.len() {
            lemma_run_is_fold(s, j + 1, t2, target_month);
        }
        if l.len() > 0 && parse_line(l) is Ok {
            let e = parse_line(l)->Ok_0;
            assert(entries_from(s, i) == seq![e] + rest);
            lemma_fold_cons(t, e, rest, target_month);
        } else {
            assert(Seq::<(Stamp, Stamp)>::empty() + rest =~= rest);
            assert(entries_from(s, i) == rest);
        }
    }
}

proof fn lemma_fold_in_month(t: Tally, es: Seq<(Stamp, Stamp)>, m: u8)
    ensures
        fold_entries(t, es, Some(m)) == fold_entries(t, in_month(es, m), None),
    decreases es.len(),
{
    if es.len() > 0 {
        let e = es[0];
        let rest = es.drop_first();
        lemma_fold_in_month(t, rest, m);
        if e.0.month == m as u32 {
            lemma_fold_cons(t, e, in_month(rest, m), None);
            let s1 = entry_step(t, e.0, e.1, Some(m), Seq::empty());
            if let Ok(t2) = s1 {
                lemma_fold_in_month(t2, rest, m);
            }
        } else {
            assert(Seq::<(Stamp, Stamp)>::empty() + in_month(rest, m) =~= in_month(rest, m));
        }
    }
}

proof fn lemma_fold_valid(t: Tally, es: Seq<(Stamp, Stamp)>, target_month: Option<u8>)
    requires
        fold_entries(t, es, target_month) is Ok,
    ensures
        forall|k: int|
            0 <= k < es.len() && month_matches(es[k].0, target_month) ==> 0 <= instant(
                #[trigger] es[k].1,
            ) - instant(es[k].0) <= 86400,
    decreases es.len(),
{
    if es.len() > 0 {
        let t2 = entry_step(t, es[0].0, es[0].1, target_month, Seq::empty())->Ok_0;
        lemma_fold_valid(t2, es.drop_first(), target_month);
        assert forall|k: int|
            0 <= k < es.len() && month_matches(es[k].0, target_month) implies 0 <= instant(
                #[trigger] es[k].1,
            ) - instant(es[k].0) <= 86400 by {
            if k > 0 {
                assert(es[k] == es.drop_first()[k - 1]);
            }
        }
    }
}

/// Reading a log with a target month gives what reading, with no filter,
/// only the entries that start in that month gives: the filter takes a
/// subset of the entries before anything is merged or added up.
pub proof fn lemma_month_filter_is_subset(s: Seq<char>, m: u8)
    requires
        report_of(s, Some(m)) is Ok,
    ensures
        fold_entries(empty_tally(), in_month(entries_from(s, 0), m), None) == Ok::<
            Tally,
            ErrorKind,
        >(report_of(s, Some(m))->Ok_0),
{
    lemma_run_is_fold(s, 0, empty_tally(), Some(m));
    lemma_fold_in_month(empty_tally(), entries_from(s, 0), m);
}

/// A log in which an entry that passes the month filter ends before it
/// starts, or lasts more than a day, gives no report at all.
pub proof fn lemma_bad_entry_fails(s: Seq<char>, target_month: Option<u8>, k: int)
    requires
        0 <= k < entries_from(s, 0).len(),
        month_matches(entries_from(s, 0)[k].0, target_month),
        instant(entries_from(s, 0)[k].1) < instant(entries_from(s, 0)[k].0) || instant(
            entries_from(s, 0)[k].1,
        ) - instant(entries_from(s, 0)[k].0) > 86400,
    ensures
        report_of(s, target_month) is Err,
{
    if report_of(s, target_month) is Ok {
        lemma_run_is_fold(s, 0, empty_tally(), target_month);
        lemma_fold_valid(empty_tally(), entries_from(s, 0), target_month);
    }
}

proof fn lemma_fold_prev_day(t: Tally, es: Seq<(Stamp, Stamp)>)
    requires
        fold_entries(t, es, None) is Ok,
    ensures
        es.len() > 0 ==> fold_entries(t, es, None)->Ok_0.prev_day == Some(es.last().0.day),
        es.len() == 0 ==> fold_entries(t, es, None)->Ok_0 == t,
    decreases es.len(),
{
    if es.len() > 0 {
        let t2 = entry_step(t, es[0].0, es[0].1, None, Seq::empty())->Ok_0;
        lemma_fold_prev_day(t2, es.drop_first());
        if es.len() > 1 {
            assert(es.drop_first().last() == es.last());
        }
    }
}

proof fn lemma_fold_keeps(t: Tally, es: Seq<(Stamp, Stamp)>, target_month: Option<u8>)
    requires
        fold_entries(t, es, target_month) is Ok,
    ensures
        fold_entries(t, es, target_month)->Ok_0.records.len() >= t.records.len(),
        forall|j: int|
            0 <= j < t.records.len() - 1 ==> fold_entries(t, es, target_month)->Ok_0.records[j]
                == #[trigger] t.records[j],
    decreases es.len(),
{
    if es.len() > 0 {
        let t2 = entry_step(t, es[0].0, es[0].1, target_month, Seq::empty())->Ok_0;
        lemma_fold_keeps(t2, es.drop_first(), target_month);
        assert forall|j: int| 0 <= j < t.records.len() - 1 implies t2.records[j] == #[trigger] t.records[j] by {
        }
    }
}

/// Three sessions that follow each other in a log read without a month
/// filter and start on one day, where the entries just before and just
/// after them start on other days, make one day record: it starts with the
/// first session and spans the sum of the three durations.
pub proof fn lemma_same_day_sessions(
    s: Seq<char>,
    pre: Seq<(Stamp, Stamp)>,
    a: (Stamp, Stamp),
    b: (Stamp, Stamp),
    c: (Stamp, Stamp),
    post: Seq<(Stamp, Stamp)>,
)
    requires
        report_of(s, None) is Ok,
        entries_from(s, 0) == pre + seq![a, b, c] + post,
        a.0.day == b.0.day,
        b.0.day == c.0.day,
        pre.len() > 0 ==> pre.last().0.day != a.0.day,
        post.len() > 0 ==> post[0].0.day != a.0.day,
    ensures
        fold_entries(empty_tally(), pre, None) is Ok,
        fold_entries(empty_tally(), pre + seq![a, b, c], None) is Ok,
        ({
            let k = fold_entries(empty_tally(), pre, None)->Ok_0.records.len();
            let rs = report_of(s, None)->Ok_0.records;
            &&& fold_entries(empty_tally(), pre + seq![a, b, c], None)->Ok_0.records.len() == k + 1
            &&& k < rs.len()
            &&& rs[k as int].start == a.0
            &&& rs[k as int].end - instant(a.0) == (instant(a.1) - instant(a.0)) + (instant(b.1)
                - instant(b.0)) + (instant(c.1) - instant(c.0))
        }),
{
    let e = entries_from(s, 0);
    let abc = seq![a, b, c];
    lemma_run_is_fold(s, 0, empty_tally(), None);
    assert(e =~= pre + (abc + post));
    lemma_fold_concat(empty_tally(), pre, abc + post, None);
    let t0 = fold_entries(empty_tally(), pre, None)->Ok_0;
    lemma_fold_prev_day(empty_tally(), pre);
    lemma_fold_concat(t0, abc, post, None);
    lemma_fold_concat(empty_tally(), pre, abc, None);
    assert(abc =~= seq![a] + seq![b, c]);
    assert(seq![b, c] =~= seq![b] + seq![c]);
    lemma_fold_cons(t0, a, seq![b, c], None);
    let t1 = entry_step(t0, a.0, a.1, None, Seq::empty())->Ok_0;
    lemma_fold_cons(t1, b, seq![c], None);
    let t2 = entry_step(t1, b.0, b.1, None, Seq::empty())->Ok_0;
    lemma_fold_cons(t2, c, Seq::empty(), None);
    let t3 = entry_step(t2, c.0, c.1, None, Seq::empty())->Ok_0;
    assert(fold_entries(t0, abc, None) == Ok::<Tally, ErrorKind>(t3));
    let k = t0.records.len();
    assert(t3.records.len() == k + 1);
    assert(t3.records[k as int].start == a.0);
    if post.len() > 0 {
        assert(post =~= seq![post[0]] + post.drop_first());
        lemma_fold_cons(t3, post[0], post.drop_first(), None);
        let t4 = entry_step(t3, post[0].0, post[0].1, None, Seq::empty())->Ok_0;
        assert(t4.records.len() == k + 2);
        assert(t4.records[k as int] == t3.records[k as int]);
        lemma_fold_keeps(t4, post.drop_first(), None);
    } else {
        lemma_fold_prev_day(t3, post);
    }
}

} // verus!
