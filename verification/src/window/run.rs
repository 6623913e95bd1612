//! A copy while it runs: what its worker reported, what the job page says about it, and how it
//! ended. Times are nanoseconds of a clock that doesn't go back; speeds and what is drawn from
//! them are for whoever divides.

use vstd::prelude::*;
use vstd::string::*;
use crate::drives::Drive;
use crate::fmt;
use crate::fmt::bytes_of;
use crate::job::{Ended, Event, Outcome, Told};
use crate::text::{chars, lines, split_lines, string, views};
use crate::window::{success_of, success_title};

verus! {

/// How many bars the chart has.
pub const BARS: usize = 48;

/// How many readings the current speed goes by.
pub const READINGS: usize = 8;

/// A reading: when, and what was done and moved by then.
#[derive(Clone, Copy, Debug, PartialEq, Eq, Structural)]
pub struct Sample {
    pub at: u64,
    pub done: u64,
    pub moved: u64,
}

/// A bar of the chart: so many bytes in so many nanoseconds.
#[derive(Clone, Copy, Debug, PartialEq, Eq, Structural)]
pub struct Bar {
    pub bytes: u64,
    pub nanos: u64,
}

#[derive(Debug)]
pub struct Run {
    /// What `done` counts toward.
    pub total: Option<u64>,
    pub elevated: bool,
    pub started: bool,
    pub syncing: bool,
    pub copying_since: Option<u64>,
    pub done: u64,
    /// Bytes written, when progress counts something else (compressed input).
    pub written: Option<u64>,
    /// Recent readings, for the current speed.
    pub samples: Vec<Sample>,
    /// When the last chart bar ended, and what was moved by then.
    pub mark: Option<(u64, u64)>,
    /// A bar per second or so, for the chart.
    pub history: Vec<Bar>,
    pub verb: &'static str,
    pub action: &'static str,
    pub target_file: Option<String>,
    /// Progress counts compressed bytes read rather than bytes written.
    pub compressed_units: bool,
    /// Bytes written are compressed output, so speed and totals go by bytes read.
    pub output_is_compressed: bool,
    /// Free space a smart copy didn't need to copy.
    pub skipped: Option<u64>,
    /// A source drive the worker unmounted, to mount again afterwards.
    pub unmounted_source: Option<Drive>,
}

pub open spec fn less(a: u64, b: u64) -> u64 {
    if a > b {
        (a - b) as u64
    } else {
        0
    }
}

/// The newest readings.
pub open spec fn newest(s: Seq<Sample>) -> Seq<Sample> {
    if s.len() > READINGS {
        s.skip(s.len() - READINGS)
    } else {
        s
    }
}

impl Run {
    /// A run that nothing was reported of.
    pub open spec fn fresh(self) -> bool {
        &&& !self.syncing
        &&& self.copying_since is None
        &&& self.done == 0
        &&& self.written is None
        &&& self.samples@.len() == 0
        &&& self.mark is None
        &&& self.history@.len() == 0
    }

    pub open spec fn written_of(self) -> u64 {
        match self.written {
            Some(n) => n,
            None => self.done,
        }
    }

    pub fn bytes_written(&self) -> (r: u64)
        ensures
            r == self.written_of(),
    {
        match self.written {
            Some(n) => n,
            None => self.done,
        }
    }

    /// The bytes that measure speed: what was read for compressed output, else what was written.
    pub open spec fn moved_of(self) -> u64 {
        if self.output_is_compressed {
            self.done
        } else {
            self.written_of()
        }
    }

    pub fn bytes_moved(&self) -> (r: u64)
        ensures
            r == self.moved_of(),
    {
        if self.output_is_compressed {
            self.done
        } else {
            self.bytes_written()
        }
    }

    /// Where the next bar starts.
    pub open spec fn bar_start(self) -> Option<(u64, u64)> {
        match self.mark {
            Some(m) => Some(m),
            None => match self.copying_since {
                Some(t) => Some((t, 0)),
                None => None,
            },
        }
    }

    /// The bar that a reading ends. One per second or so; a final report right after the last
    /// periodic one would otherwise show up as a spike.
    pub open spec fn bar_of(self, now: u64, moved: u64) -> Option<Bar> {
        match self.bar_start() {
            Some((then_at, before)) => if less(now, then_at) >= 900_000_000 {
                Some(Bar { bytes: less(moved, before), nanos: less(now, then_at) })
            } else {
                None
            },
            None => None,
        }
    }

    /// What is known after a report.
    pub open spec fn after(self, done: u64, written: Option<u64>) -> Run {
        Run {
            done,
            written: if written is Some {
                written
            } else {
                self.written
            },
            ..self
        }
    }

    /// A report of how far it is.
    pub fn record(&mut self, now: u64, done: u64, written: Option<u64>)
        ensures
            ({
                let r = old(self).after(done, written);
                let bar = old(self).bar_of(now, r.moved_of());
                &&& *final(self) == (Run {
                    samples: final(self).samples,
                    history: final(self).history,
                    mark: if bar is Some {
                        Some((now, r.moved_of()))
                    } else {
                        old(self).mark
                    },
                    ..r
                })
                &&& final(self).samples@ == newest(old(self).samples@.push(Sample { at: now, done, moved: r.moved_of() }))
                &&& final(self).history@ == (match bar {
                    Some(b) => old(self).history@.push(b),
                    None => old(self).history@,
                })
            }),
    {
        self.done = done;
        if written.is_some() {
            self.written = written;
        }
        let moved: u64 = self.bytes_moved();
        let start: Option<(u64, u64)> = match self.mark {
            Some(m) => Some(m),
            None => match self.copying_since {
                Some(t) => Some((t, 0)),
                None => None,
            },
        };
        if let Some((at, before)) = start {
            let nanos: u64 = now.saturating_sub(at);
            if nanos >= 900_000_000 {
                self.history.push(Bar { bytes: moved.saturating_sub(before), nanos });
                self.mark = Some((now, moved));
            }
        }
        self.samples.push(Sample { at: now, done, moved });
        let ghost all = self.samples@;
        let ghost all_but = *self;
        proof {
            assert(all.skip(0) =~= all);
        }
        let ghost mut gone: int = 0;
        while self.samples.len() > READINGS
            invariant
                0 <= gone <= all.len(),
                self.samples@ == all.skip(gone),
                gone > 0 ==> all.len() - gone >= READINGS,
                *self == (Run { samples: self.samples, ..all_but }),
            decreases self.samples@.len(),
        {
            self.samples.remove(0);
            proof {
                assert(self.samples@ =~= all.skip(gone + 1));
                gone = gone + 1;
            }
        }
        proof {
            assert(self.samples@ =~= newest(all));
        }
    }

    /// What to divide for the current speeds: what was done and moved in how long.
    pub open spec fn rates_of(self, now: u64) -> Option<(u64, u64, u64)> {
        if self.samples@.len() == 0 {
            None
        } else {
            let a = self.samples@[0];
            let b = self.samples@.last();
            if less(b.at, a.at) >= 500_000_000 {
                Some((less(b.done, a.done), less(b.moved, a.moved), less(b.at, a.at)))
            } else {
                match self.copying_since {
                    Some(t) => if less(now, t) > 500_000_000 {
                        Some((self.done, self.moved_of(), less(now, t)))
                    } else {
                        None
                    },
                    None => None,
                }
            }
        }
    }

    /// Recent change of what is done and moved, and how many nanoseconds it took.
    pub fn rates(&self, now: u64) -> (r: Option<(u64, u64, u64)>)
        ensures
            r == self.rates_of(now),
            r matches Some((_, _, nanos)) ==> nanos >= 500_000_000,
    {
        let n: usize = self.samples.len();
        if n == 0 {
            return None;
        }
        let a: Sample = self.samples[0];
        let b: Sample = self.samples[n - 1];
        let nanos: u64 = b.at.saturating_sub(a.at);
        if nanos >= 500_000_000 {
            return Some((b.done.saturating_sub(a.done), b.moved.saturating_sub(a.moved), nanos));
        }
        match self.copying_since {
            Some(t) => {
                let since: u64 = now.saturating_sub(t);
                if since > 500_000_000 {
                    Some((self.done, self.bytes_moved(), since))
                } else {
                    None
                }
            },
            None => None,
        }
    }

    pub open spec fn elapsed_of(self, now: u64) -> u64 {
        match self.copying_since {
            Some(t) => less(now, t),
            None => 0,
        }
    }

    /// How long it has been copying, in nanoseconds.
    pub fn elapsed(&self, now: u64) -> (r: u64)
        ensures
            r == self.elapsed_of(now),
    {
        match self.copying_since {
            Some(t) => now.saturating_sub(t),
            None => 0,
        }
    }

    /// Is everything copied, so that only flushing is left?
    pub open spec fn copied(self) -> bool {
        self.syncing || (self.total matches Some(t) && t > 0 && self.done >= t)
    }

    pub fn done_copying(&self) -> (r: bool)
        ensures
            r == self.copied(),
    {
        self.syncing || match self.total {
            Some(t) => t > 0 && self.done >= t,
            None => false,
        }
    }

    pub open spec fn phase_of(self) -> Seq<char> {
        if !self.started {
            if self.elevated {
                "Waiting for permission"@
            } else {
                "Starting"@
            }
        } else if self.copying_since is None {
            "Getting the drive ready"@
        } else if self.copied() {
            "Flushing to disk"@
        } else {
            self.verb@
        }
    }

    /// What it is doing, in words.
    pub fn phase(&self) -> (s: &'static str)
        ensures
            s@ == self.phase_of(),
    {
        if !self.started {
            if self.elevated {
                "Waiting for permission"
            } else {
                "Starting"
            }
        } else if self.copying_since.is_none() {
            "Getting the drive ready"
        } else if self.done_copying() {
            "Flushing to disk"
        } else {
            self.verb
        }
    }

    /// Does the picture spin: is there no telling how far it is?
    pub fn spinning(&self) -> (r: bool)
        ensures
            r == (self.copying_since is None || self.total is None || self.copied()),
    {
        self.copying_since.is_none() || self.total.is_none() || self.done_copying()
    }

    pub open spec fn amount_of(self) -> Seq<char> {
        if self.compressed_units {
            bytes_of(self.written_of()) + " written"@
        } else {
            match self.total {
                Some(t) => bytes_of(self.done) + " of "@ + bytes_of(t),
                None => bytes_of(self.done) + " written"@,
            }
        }
    }

    /// How much is done, in words.
    pub fn amount(&self) -> (s: String)
        ensures
            s@ == self.amount_of(),
    {
        if self.compressed_units {
            let mut s: String = fmt::bytes(self.bytes_written());
            s.append(" written");
            return s;
        }
        let mut s: String = fmt::bytes(self.done);
        match self.total {
            Some(t) => {
                s.append(" of ");
                s.append(fmt::bytes(t).as_str());
            },
            None => {
                s.append(" written");
            },
        }
        s
    }

    /// What is left to do, if time can be told from it: not once everything is copied.
    pub fn left(&self) -> (r: Option<u64>)
        ensures
            r == (match self.total {
                Some(t) if !self.copied() => Some(less(t, self.done)),
                _ => None,
            }),
    {
        match self.total {
            Some(t) => {
                if self.done_copying() {
                    None
                } else {
                    Some(t.saturating_sub(self.done))
                }
            },
            None => None,
        }
    }

    /// The bars of the most recent seconds, newest on the right.
    pub fn recent(&self) -> (r: Vec<Bar>)
        ensures
            r@.len() == BARS,
            forall|i: int|
                0 <= i < BARS ==> #[trigger] r@[i] == (if i < BARS - self.history@.len() {
                    Bar { bytes: 0, nanos: 1 }
                } else {
                    self.history@[self.history@.len() - BARS + i]
                }),
    {
        let n: usize = self.history.len();
        let mut r: Vec<Bar> = Vec::new();
        let mut i: usize = 0;
        while i < BARS
            invariant
                i <= BARS,
                n == self.history@.len(),
                r@.len() == i,
                forall|k: int|
                    0 <= k < i ==> #[trigger] r@[k] == (if k < BARS - n {
                        Bar { bytes: 0, nanos: 1 }
                    } else {
                        self.history@[n - BARS + k]
                    }),
            decreases BARS - i,
        {
            if n < BARS && i < BARS - n {
                r.push(Bar { bytes: 0, nanos: 1 });
            } else if n >= BARS {
                r.push(self.history[n - BARS + i]);
            } else {
                r.push(self.history[i - (BARS - n)]);
            }
            i = i + 1;
        }
        r
    }
}

/// Which bars of the history make bar `i` of the whole run's chart.
pub open spec fn chunk_of(i: int, len: int) -> (int, int) {
    let start = i * len / (BARS as int);
    let end = (i + 1) * len / (BARS as int);
    (
        start,
        if end < start + 1 {
            start + 1
        } else {
            end
        },
    )
}

proof fn lemma_chunk(i: int, len: int)
    requires
        0 <= i < BARS,
        len > 0,
    ensures
        0 <= chunk_of(i, len).0 < chunk_of(i, len).1 <= len,
{
    let a = i * len;
    let b = (i + 1) * len;
    assert(0 <= a && a + len == b && b <= 48 * len) by (nonlinear_arith)
        requires
            0 <= i < 48,
            len > 0,
            a == i * len,
            b == (i + 1) * len,
    ;
    assert(a <= 47 * len) by (nonlinear_arith)
        requires
            0 <= i < 48,
            len > 0,
            a == i * len,
    ;
}

/// The parts of the history that make the bars of the whole run's chart; none for runs too
/// short to chart.
pub fn overview(len: usize) -> (r: Vec<(usize, usize)>)
    requires
        len * BARS <= usize::MAX,
    ensures
        len < 4 ==> r@.len() == 0,
        len >= 4 ==> r@.len() == BARS && forall|i: int|
            0 <= i < BARS ==> (#[trigger] r@[i]).0 < r@[i].1 <= len && (r@[i].0 as int, r@[i].1 as int) == chunk_of(
                i,
                len as int,
            ),
{
    let mut r: Vec<(usize, usize)> = Vec::new();
    if len < 4 {
        return r;
    }
    let mut i: usize = 0;
    while i < BARS
        invariant
            i <= BARS,
            len >= 4,
            len * BARS <= usize::MAX,
            r@.len() == i,
            forall|k: int|
                0 <= k < i ==> (#[trigger] r@[k]).0 < r@[k].1 <= len && (r@[k].0 as int, r@[k].1 as int) == chunk_of(
                    k,
                    len as int,
                ),
        decreases BARS - i,
    {
        proof {
            lemma_chunk(i as int, len as int);
            assert(0 <= i * len <= len * 48 && (i + 1) * len <= len * 48) by (nonlinear_arith)
                requires
                    i < 48,
            ;
        }
        let start: usize = i * len / BARS;
        let mut end: usize = (i + 1) * len / BARS;
        if end < start + 1 {
            end = start + 1;
        }
        r.push((start, end));
        i = i + 1;
    }
    r
}

/// The chart of a whole run is made of parts of its history that are not empty and come one
/// after another, none twice where there are bars enough.
pub proof fn law_overview_is_in_order(i: int, len: int)
    requires
        0 <= i < BARS - 1,
        len >= BARS,
    ensures
        chunk_of(i, len).1 == chunk_of(i + 1, len).0,
        chunk_of(0, len).0 == 0,
        chunk_of(BARS - 1, len).1 == len,
{
    let a = i * len;
    let b = (i + 1) * len;
    assert(b == a + len) by (nonlinear_arith)
        requires
            a == i * len,
            b == (i + 1) * len,
    ;
    assert((i + 2) * len == b + len) by (nonlinear_arith)
        requires
            b == (i + 1) * len,
    ;
    assert(0 * len == 0) by (nonlinear_arith);
    assert(47 * len / 48 < 48 * len / 48);
}

// What the worker says, while a copy runs or waits for a choice.

/// What to do about an event.
#[derive(Debug)]
pub enum Reaction {
    /// Nothing.
    Ignore,
    /// The worker stopped before the copy mode was chosen.
    FinishPending(Outcome),
    FinishRun(Outcome),
    /// Read the layout, and show what there is to choose.
    ReadLayout(String),
    /// Say this in the dialog.
    Status(&'static str),
    /// Stop the worker, and say this.
    Stop(&'static str),
    /// Show the run.
    Render,
}

/// What a reaction is.
pub ghost enum Answered {
    Ignore,
    FinishPending(Ended),
    FinishRun(Ended),
    ReadLayout(Seq<char>),
    Status(Seq<char>),
    Stop(Seq<char>),
    Render,
}

impl View for Reaction {
    type V = Answered;

    open spec fn view(&self) -> Answered {
        match self {
            Reaction::Ignore => Answered::Ignore,
            Reaction::FinishPending(o) => Answered::FinishPending(o@),
            Reaction::FinishRun(o) => Answered::FinishRun(o@),
            Reaction::ReadLayout(s) => Answered::ReadLayout(s@),
            Reaction::Status(s) => Answered::Status(s@),
            Reaction::Stop(s) => Answered::Stop(s@),
            Reaction::Render => Answered::Render,
        }
    }
}

pub const READING: &'static str = "Reading the drive's layout…";

pub const TOO_EARLY: &'static str = "The copy started before a mode was chosen, so DD-GUI stopped it.";

/// What to do about an event. `current` if it is of the job that runs, `pending` if the copy
/// mode isn't chosen yet, `running` if there is a run.
pub open spec fn reaction_of(event: Told, current: bool, pending: bool, running: bool) -> Answered {
    if !current {
        // Events from other jobs are stale.
        Answered::Ignore
    } else {
        match event {
            Told::Finished(o) => if pending {
                Answered::FinishPending(o)
            } else {
                Answered::FinishRun(o)
            },
            Told::Layout(json) => Answered::ReadLayout(json),
            Told::Started => if pending {
                Answered::Status(READING@)
            } else if running {
                Answered::Render
            } else {
                Answered::Ignore
            },
            // Nothing may be copied before the user picked a mode.
            _ => if pending {
                Answered::Stop(TOO_EARLY@)
            } else if running {
                Answered::Render
            } else {
                Answered::Ignore
            },
        }
    }
}

/// Does the run change with these fields, and nothing else?
pub open spec fn told_run(before: Run, after: Run, event: Told, now: u64) -> bool {
    match event {
        Told::Started => after == Run { started: true, ..before },
        Told::Copying => after == Run { started: true, copying_since: Some(now), ..before },
        Told::Total(n) => after == Run { total: Some(n), ..before },
        Told::Syncing => after == Run { syncing: true, ..before },
        Told::Progress { done, written } => {
            let r = before.after(done, written);
            let bar = before.bar_of(now, r.moved_of());
            &&& after == Run {
                samples: after.samples,
                history: after.history,
                mark: if bar is Some {
                    Some((now, r.moved_of()))
                } else {
                    before.mark
                },
                ..r
            }
            &&& after.samples@ == newest(before.samples@.push(Sample { at: now, done, moved: r.moved_of() }))
            &&& after.history@ == (match bar {
                Some(b) => before.history@.push(b),
                None => before.history@,
            })
        },
        _ => after == before,
    }
}

/// What to do about an event, with `run` brought up to date.
pub fn on_event(run: &mut Option<Run>, event: Event, current: bool, pending: bool, now: u64) -> (r: Reaction)
    ensures
        r@ == reaction_of(event@, current, pending, *old(run) is Some),
        *final(run) is Some <==> *old(run) is Some,
        if r@ is Render {
            told_run((*old(run))->0, (*final(run))->0, event@, now)
        } else {
            *final(run) == *old(run)
        },
{
    if !current {
        return Reaction::Ignore;
    }
    match event {
        Event::Finished(o) => {
            if pending {
                return Reaction::FinishPending(o);
            } else {
                return Reaction::FinishRun(o);
            }
        },
        Event::Layout(json) => {
            return Reaction::ReadLayout(json);
        },
        Event::Started => {
            if pending {
                return Reaction::Status(READING);
            }
            match run.take() {
                Some(r) => {
                    let mut r: Run = r;
                    r.started = true;
                    *run = Some(r);
                    Reaction::Render
                },
                None => Reaction::Ignore,
            }
        },
        Event::Copying => {
            if pending {
                return Reaction::Stop(TOO_EARLY);
            }
            match run.take() {
                Some(r) => {
                    let mut r: Run = r;
                    r.started = true;
                    r.copying_since = Some(now);
                    *run = Some(r);
                    Reaction::Render
                },
                None => Reaction::Ignore,
            }
        },
        Event::Total(n) => {
            if pending {
                return Reaction::Stop(TOO_EARLY);
            }
            match run.take() {
                Some(r) => {
                    let mut r: Run = r;
                    r.total = Some(n);
                    *run = Some(r);
                    Reaction::Render
                },
                None => Reaction::Ignore,
            }
        },
        Event::Progress { done, written } => {
            if pending {
                return Reaction::Stop(TOO_EARLY);
            }
            match run.take() {
                Some(r) => {
                    let mut r: Run = r;
                    r.record(now, done, written);
                    *run = Some(r);
                    Reaction::Render
                },
                None => Reaction::Ignore,
            }
        },
        Event::Syncing => {
            if pending {
                return Reaction::Stop(TOO_EARLY);
            }
            match run.take() {
                Some(r) => {
                    let mut r: Run = r;
                    r.syncing = true;
                    *run = Some(r);
                    Reaction::Render
                },
                None => Reaction::Ignore,
            }
        },
    }
}

/// Nothing is copied before a mode was chosen: a worker that starts is stopped.
pub proof fn law_nothing_is_copied_unasked(event: Told, running: bool)
    requires
        event is Copying || event is Total || event is Progress || event is Syncing,
    ensures
        reaction_of(event, true, true, running) == Answered::Stop(TOO_EARLY@),
{
}

/// Events of other jobs than the one that runs change nothing.
pub proof fn law_stale_events_are_ignored(event: Told, pending: bool, running: bool)
    ensures
        reaction_of(event, false, pending, running) is Ignore,
{
}

// How it ended.

pub open spec fn pending_notice_of(outcome: Ended) -> Option<Seq<char>> {
    match outcome {
        Ended::NotAuthorized(message) => Some(message),
        Ended::Failed(detail) => Some(
            "Couldn't read the drive: "@ + (if lines(detail).len() > 0 {
                lines(detail).last()
            } else {
                Seq::empty()
            }),
        ),
        _ => None,
    }
}

/// What to say when the worker stopped before the copy mode was chosen.
pub fn finish_pending(outcome: Outcome) -> (r: Option<String>)
    ensures
        match r {
            Some(s) => pending_notice_of(outcome@) == Some(s@),
            None => pending_notice_of(outcome@) is None,
        },
{
    match outcome {
        Outcome::NotAuthorized(message) => Some(message),
        Outcome::Failed(detail) => {
            let v: Vec<Vec<char>> = split_lines(&chars(detail.as_str()));
            let mut s: String = "Couldn't read the drive: ".to_owned();
            if v.len() > 0 {
                assert(views(v@).last() == v@[v@.len() - 1]@);
                s.append(string(&v[v.len() - 1]).as_str());
            } else {
                assert(s@ + Seq::<char>::empty() =~= s@);
            }
            Some(s)
        },
        _ => None,
    }
}

/// What the window shows after a run.
#[derive(Debug)]
pub enum Finished {
    /// Back to the setup page, with a notice.
    Back(String),
    /// On the job page.
    Page {
        /// 1: it worked, 2: it failed, 3: it was cancelled.
        result: i32,
        title: &'static str,
        body: String,
        detail: String,
        stats: Vec<(&'static str, String)>,
        route: String,
        can_reveal: bool,
        /// Is the chart of the whole run shown?
        chart: bool,
    },
}

pub open spec fn stopped_of(moved: u64) -> Seq<char> {
    if moved == 0 {
        "It stopped before copying anything."@
    } else {
        "It stopped after copying "@ + bytes_of(moved) + "."@
    }
}

pub open spec fn cancelled_of(moved: u64) -> Seq<char> {
    if moved == 0 {
        "Nothing was written."@
    } else {
        "Stopped after "@ + bytes_of(moved) + ". The target only holds part of the data now."@
    }
}

pub open spec fn route_of(route: Seq<char>, skipped: Option<u64>) -> Seq<char> {
    match skipped {
        Some(n) if n > 0 => route + "\nSkipped "@ + bytes_of(n) + " of free space."@,
        _ => route,
    }
}

pub open spec fn stats_of(run: Run, average: Seq<char>, took: Seq<char>) -> Seq<(Seq<char>, Seq<char>)> {
    if run.output_is_compressed {
        seq![
            ("COPIED"@, bytes_of(run.moved_of())),
            ("IMAGE SIZE"@, bytes_of(run.written_of())),
            ("TOOK"@, took),
        ]
    } else {
        seq![("COPIED"@, bytes_of(run.moved_of())), ("AVERAGE"@, average), ("TOOK"@, took)]
    }
}

pub open spec fn stat_views(v: Seq<(&'static str, String)>) -> Seq<(Seq<char>, Seq<char>)> {
    v.map_values(|p: (&'static str, String)| (p.0@, p.1@))
}

/// Does the page say how a run ended?
pub open spec fn tells(f: Finished, run: Run, outcome: Ended, route: Seq<char>, average: Seq<char>, took: Seq<char>) -> bool {
    match (outcome, f) {
        (Ended::NotAuthorized(message), Finished::Back(s)) => s@ == message,
        (Ended::Success, Finished::Page { result, title, body, detail, stats, route: r, can_reveal, chart }) => {
            &&& result == 1
            &&& title@ == success_of(run.action@)
            &&& body@ == ""@
            &&& detail@ == ""@
            &&& stat_views(stats@) == stats_of(run, average, took)
            &&& r@ == route_of(route, run.skipped)
            &&& can_reveal == (run.target_file is Some)
            &&& chart
        },
        (Ended::Failed(why), Finished::Page { result, title, body, detail, stats, route: r, can_reveal, chart }) => {
            &&& result == 2
            &&& title@ == "Something went wrong"@
            &&& body@ == stopped_of(run.moved_of())
            &&& detail@ == why
            &&& stats@.len() == 0
            &&& r@ == route
            &&& !can_reveal
            &&& !chart
        },
        (Ended::Cancelled, Finished::Page { result, title, body, detail, stats, route: r, can_reveal, chart }) => {
            &&& result == 3
            &&& title@ == "Cancelled"@
            &&& body@ == cancelled_of(run.moved_of())
            &&& detail@ == ""@
            &&& stats@.len() == 0
            &&& r@ == route
            &&& !can_reveal
            &&& chart
        },
        _ => false,
    }
}

/// What to show when a run ended; `average` and `took` are its speed and how long it took, in
/// words.
pub fn finish_run(run: &Run, outcome: Outcome, route: &str, average: &str, took: &str) -> (r: Finished)
    ensures
        tells(r, *run, outcome@, route@, average@, took@),
{
    let moved: u64 = run.bytes_moved();
    match outcome {
        Outcome::NotAuthorized(message) => Finished::Back(message),
        Outcome::Success => {
            let mut stats: Vec<(&'static str, String)> = Vec::new();
            stats.push(("COPIED", fmt::bytes(moved)));
            if run.output_is_compressed {
                stats.push(("IMAGE SIZE", fmt::bytes(run.bytes_written())));
            } else {
                stats.push(("AVERAGE", average.to_owned()));
            }
            stats.push(("TOOK", took.to_owned()));
            assert(stat_views(stats@) =~= stats_of(*run, average@, took@));
            let mut shown: String = route.to_owned();
            if let Some(n) = run.skipped {
                if n > 0 {
                    shown.append("\nSkipped ");
                    shown.append(fmt::bytes(n).as_str());
                    shown.append(" of free space.");
                }
            }
            Finished::Page {
                result: 1,
                title: success_title(run.action),
                body: "".to_owned(),
                detail: "".to_owned(),
                stats,
                route: shown,
                can_reveal: run.target_file.is_some(),
                chart: true,
            }
        },
        Outcome::Failed(detail) => {
            let body: String = if moved == 0 {
                "It stopped before copying anything.".to_owned()
            } else {
                let mut s: String = "It stopped after copying ".to_owned();
                s.append(fmt::bytes(moved).as_str());
                s.append(".");
                s
            };
            Finished::Page {
                result: 2,
                title: "Something went wrong",
                body,
                detail,
                stats: Vec::new(),
                route: route.to_owned(),
                can_reveal: false,
                chart: false,
            }
        },
        Outcome::Cancelled => {
            let body: String = if moved == 0 {
                "Nothing was written.".to_owned()
            } else {
                let mut s: String = "Stopped after ".to_owned();
                s.append(fmt::bytes(moved).as_str());
                s.append(". The target only holds part of the data now.");
                s
            };
            Finished::Page {
                result: 3,
                title: "Cancelled",
                body,
                detail: "".to_owned(),
                stats: Vec::new(),
                route: route.to_owned(),
                can_reveal: false,
                chart: true,
            }
        },
    }
}

/// What to say when a drive that was copied from can't be mounted again.
pub fn remount_notice(name: &str, why: &str) -> (s: String)
    ensures
        s@ == "Couldn't mount "@ + name@ + " again: "@ + why@,
{
    let mut s: String = "Couldn't mount ".to_owned();
    s.append(name);
    s.append(" again: ");
    s.append(why);
    s
}

} // verus!
