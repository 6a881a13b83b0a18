//! The commands the program accepts, and the checks its log writer makes on
//! the last line of a log.

use vstd::prelude::*;

verus! {

/// What to log.
#[derive(Clone, Copy, Debug, PartialEq, Eq, Structural)]
pub enum Action {
    /// Starting to work.
    Start,
    /// Finished working.
    End,
}

/// What to report.
#[derive(Clone, Copy, Debug, PartialEq, Eq, Structural)]
pub enum Mode {
    /// Print total hours worked.
    Total,
    /// Print all start timestamps.
    Starts,
    /// Print all end timestamps.
    Ends,
}

/// A parsed command line.
#[derive(Debug)]
pub struct Cli {
    pub command: Commands,
}

/// The program's subcommands.
#[derive(Debug)]
pub enum Commands {
    /// Log worked hours.
    Log { action: Action, log_file_path: String },
    /// Report the log's content in a form easy to paste into a spreadsheet.
    Report {
        mode: Mode,
        log_file_path: String,
        target_month: Option<u8>,
        target_year: Option<u16>,
        hourly_wage: Option<u32>,
    },
}

/// Number of commas in `s`.
pub open spec fn comma_count(s: Seq<char>) -> nat
    decreases s.len(),
{
    if s.len() == 0 {
        0
    } else {
        comma_count(s.drop_last()) + if s.last() == ',' { 1nat } else { 0nat }
    }
}

fn count_commas(line: &str) -> (r: usize)
    ensures
        r == comma_count(line@),
{
    let n = line.unicode_len();
    let mut k: usize = 0;
    let mut c: usize = 0;
    while k < n
        invariant
            n == line@.len(),
            k <= n,
            c == comma_count(line@.subrange(0, k as int)),
            c <= k,
        decreases n - k,
    {
        proof {
            assert(line@.subrange(0, k + 1).drop_last() =~= line@.subrange(0, k as int));
        }
        if line.get_char(k) == ',' {
            c = c + 1;
        }
        k = k + 1;
    }
    proof {
        assert(line@.subrange(0, n as int) =~= line@);
    }
    c
}

/// A log line that holds both a start and an end time: a new session may
/// be started after it.
pub fn line_is_closed(line: &str) -> (r: bool)
    ensures
        r == (comma_count(line@) == 1),
{
    count_commas(line) == 1
}

/// A log line that holds a start time only: it may be closed with an end time.
pub fn line_is_open(line: &str) -> (r: bool)
    ensures
        r == (comma_count(line@) == 0),
{
    count_commas(line) == 0
}

} // verus!
