//! The watch loop: when to reindex and when to wait, and what each round
//! reports.
use vstd::prelude::*;

use crate::hash::{decimal, push_decimal};
use crate::model::IndexStats;
use crate::service::KnowledgeService;
use crate::text::{chars_of, push_all, string_of};

verus! {

/// How changes are noticed; polling is the one mode.
#[derive(Clone, Copy, Debug, PartialEq, Eq)]
pub enum WatchMode {
    Poll,
}

#[derive(Clone, Copy, Debug)]
pub struct WatchOptions {
    pub mode: WatchMode,
    pub interval_secs: u64,
    pub run_on_startup: bool,
}

/// Why a watch cannot start.
#[derive(Debug)]
pub enum WatchError {
    /// The poll interval is zero.
    ZeroInterval,
}

impl WatchError {
    pub fn message(&self) -> (r: &'static str)
        ensures
            r@ == "watch interval_secs must be greater than zero"@,
    {
        "watch interval_secs must be greater than zero"
    }
}

/// What the watch does next.
#[derive(Clone, Copy, Debug, PartialEq, Eq)]
pub enum WatchAction {
    /// Run one reindex round.
    Tick,
    /// Wait this many seconds.
    Sleep(u64),
}

/// A poll loop over a knowledge service: a tick on startup if asked for,
/// then forever a wait of the interval followed by a tick.
pub struct PollLoop {
    pub service: KnowledgeService,
    pub options: WatchOptions,
}

impl PollLoop {
    /// The loop is valid: it polls, and never waits for zero seconds.
    pub open spec fn wf(&self) -> bool {
        self.options.interval_secs > 0
    }

    /// The first action: a tick when `run_on_startup`, else a wait.
    pub fn first_action(&self) -> (r: WatchAction)
        requires
            self.wf(),
        ensures
            self.options.run_on_startup ==> r == WatchAction::Tick,
            !self.options.run_on_startup ==> r == WatchAction::Sleep(self.options.interval_secs),
    {
        if self.options.run_on_startup {
            WatchAction::Tick
        } else {
            WatchAction::Sleep(self.options.interval_secs)
        }
    }

    /// The action after `done`: a wait of the interval after a tick, a tick
    /// after a wait.
    pub fn next_action(&self, done: WatchAction) -> (r: WatchAction)
        requires
            self.wf(),
        ensures
            done is Tick ==> r == WatchAction::Sleep(self.options.interval_secs),
            done is Sleep ==> r == WatchAction::Tick,
            r is Sleep ==> r->0 > 0,
    {
        match done {
            WatchAction::Tick => WatchAction::Sleep(self.options.interval_secs),
            WatchAction::Sleep(_) => WatchAction::Tick,
        }
    }
}

/// Starts watching the knowledge base of `service`: refused when the
/// interval is zero, else the poll loop.
pub fn run(service: KnowledgeService, options: WatchOptions) -> (r: Result<PollLoop, WatchError>)
    ensures
        options.interval_secs == 0 <==> r is Err,
        r matches Ok(l) ==> l.options == options && l.service == service && l.wf(),
{
    if options.interval_secs == 0 {
        return Err(WatchError::ZeroInterval);
    }
    match options.mode {
        WatchMode::Poll => Ok(PollLoop { service, options }),
    }
}

/// The outcome of one round.
pub enum TickOutcome {
    Indexed(IndexStats),
    BusySkipped,
}

/// The outcome of a round, from what the attempt to reindex gave back:
/// statistics, or nothing when another writer held the index.
pub fn run_one_tick(attempt: Option<IndexStats>) -> (r: TickOutcome)
    ensures
        attempt matches Some(s) ==> r == TickOutcome::Indexed(s),
        attempt is None ==> r is BusySkipped,
{
    match attempt {
        Some(stats) => TickOutcome::Indexed(stats),
        None => TickOutcome::BusySkipped,
    }
}

/// The line a round reports, and whether it goes to standard error.
pub struct TickReport {
    pub line: String,
    pub to_stderr: bool,
}

/// The report line of a round that indexed.
pub open spec fn indexed_line(s: IndexStats) -> Seq<char> {
    "watch tick indexed scanned_docs="@ + decimal(s.scanned_docs as nat) + " updated_docs="@
        + decimal(s.updated_docs as nat) + " skipped_docs="@ + decimal(s.skipped_docs as nat)
        + " deleted_docs="@ + decimal(s.deleted_docs as nat) + " total_chunks="@ + decimal(
        s.total_chunks as nat,
    )
}

fn push_field(line: &mut Vec<char>, label: &str, n: usize)
    ensures
        final(line)@ == old(line)@ + label@ + decimal(n as nat),
{
    let l = chars_of(label);
    push_all(line, &l);
    push_decimal(line, n as u64);
}

/// What a round reports: its statistics, a busy skip, or the error that
/// ended it (given as text), the error on standard error.
pub fn report_tick(result: Result<TickOutcome, String>) -> (r: TickReport)
    ensures
        result matches Ok(TickOutcome::Indexed(s)) ==> r.line@ == indexed_line(s) && !r.to_stderr,
        result matches Ok(TickOutcome::BusySkipped) ==> r.line@
            == "watch tick skipped reason=busy"@ && !r.to_stderr,
        result matches Err(e) ==> r.line@ == "watch tick failed error="@ + e@ && r.to_stderr,
{
    match result {
        Ok(TickOutcome::Indexed(stats)) => {
            let mut line: Vec<char> = Vec::new();
            push_field(&mut line, "watch tick indexed scanned_docs=", stats.scanned_docs);
            push_field(&mut line, " updated_docs=", stats.updated_docs);
            push_field(&mut line, " skipped_docs=", stats.skipped_docs);
            push_field(&mut line, " deleted_docs=", stats.deleted_docs);
            push_field(&mut line, " total_chunks=", stats.total_chunks);
            assert(line@ =~= indexed_line(stats));
            TickReport { line: string_of(&line), to_stderr: false }
        },
        Ok(TickOutcome::BusySkipped) => TickReport {
            line: String::from_str("watch tick skipped reason=busy"),
            to_stderr: false,
        },
        Err(e) => {
            let mut line = String::from_str("watch tick failed error=");
            line.append(e.as_str());
            TickReport { line, to_stderr: true }
        },
    }
}

} // verus!
