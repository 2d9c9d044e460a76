//! Moving the bytes, and saying so while it happens.
//!
//! **A document per line, not a percentage printed over itself.** The reader is
//! a program that polls a job: half a line is one it waits for.
//!
//! **Nothing half-written is ever visible to a provider.** A download lands on
//! a `.part` beside its destination and is renamed only once complete.
use vstd::prelude::*;

use crate::document::{compact, Doc};
use crate::json::Tree;
use crate::seqs::total;
use crate::text::{cat2, cat4, cat5, cat7, decimal, digit, number, parse_unsigned, unsigned};

verus! {

/// One line of the progress stream.
#[derive(Debug)]
pub enum Progress {
    Started { file: String, bytes_total: Option<u64>, target: String },
    /// Emitted on a byte threshold rather than a timer: a stalled download
    /// should go quiet, because silence is information.
    Advanced { bytes_done: u64, bytes_total: Option<u64> },
    Finished { file: String, bytes_done: u64, path: String },
    Failed { file: String, reason: String },
}

/// A text as JSON writes it.
pub open spec fn quoted(s: Seq<char>) -> Seq<char> {
    compact(Tree::Text(s))
}

/// A count as JSON writes it, or its absence.
pub open spec fn counted(n: Option<u64>) -> Seq<char> {
    match n {
        Some(n) => decimal(n as nat),
        None => "null"@,
    }
}

/// The line an event is told in.
pub open spec fn told(p: Progress) -> Seq<char> {
    match p {
        Progress::Started { file, bytes_total, target } => "{\"event\":\"started\",\"file\":"@
            + quoted(file@) + ",\"bytes_total\":"@ + counted(bytes_total) + ",\"target\":"@
            + quoted(target@) + "}"@,
        Progress::Advanced { bytes_done, bytes_total } => "{\"event\":\"advanced\",\"bytes_done\":"@
            + decimal(bytes_done as nat) + ",\"bytes_total\":"@ + counted(bytes_total) + "}"@,
        Progress::Finished { file, bytes_done, path } => "{\"event\":\"finished\",\"file\":"@
            + quoted(file@) + ",\"bytes_done\":"@ + decimal(bytes_done as nat) + ",\"path\":"@
            + quoted(path@) + "}"@,
        Progress::Failed { file, reason } => "{\"event\":\"failed\",\"file\":"@ + quoted(file@)
            + ",\"reason\":"@ + quoted(reason@) + "}"@,
    }
}

/// Whether a text is all on one line.
pub open spec fn one_line(s: Seq<char>) -> bool {
    !s.contains('\n')
}

/// Texts on one line make one line together.
proof fn lemma_one_line(a: Seq<char>, b: Seq<char>)
    requires
        one_line(a),
        one_line(b),
    ensures
        one_line(a + b),
{
    if (a + b).contains('\n') {
        let i = (a + b).index_of('\n');
        if i < a.len() {
            assert(a[i] == '\n');
        } else {
            assert(b[i - a.len()] == '\n');
        }
    }
}

/// A number is all on one line.
proof fn lemma_decimal_is_one_line(n: nat)
    ensures
        one_line(decimal(n)),
    decreases n,
{
    if n < 10 {
        assert(decimal(n)[0] == digit(n as int));
        assert(one_line(decimal(n)));
    } else {
        lemma_decimal_is_one_line(n / 10);
        let last = seq![digit((n % 10) as int)];
        assert(decimal(n) =~= decimal(n / 10) + last);
        assert(last[0] == digit((n % 10) as int));
        assert(one_line(last));
        lemma_one_line(decimal(n / 10), last);
    }
}

fn quote(s: &str) -> (r: String)
    ensures
        r@ == quoted(s@),
        one_line(r@),
{
    Doc::Text(s.to_owned()).line()
}

fn count(n: Option<u64>) -> (r: String)
    ensures
        r@ == counted(n),
        one_line(r@),
{
    match n {
        Some(n) => {
            proof {
                lemma_decimal_is_one_line(n as nat);
            }
            number(n)
        },
        None => {
            proof {
                reveal_strlit("null");
            }
            "null".to_owned()
        },
    }
}

impl Progress {
    /// The event on one line: a reader splits on newlines.
    pub fn line(&self) -> (r: String)
        ensures
            r@ == told(*self),
            one_line(r@),
    {
        proof {
            reveal_strlit("{\"event\":\"started\",\"file\":");
            reveal_strlit("{\"event\":\"advanced\",\"bytes_done\":");
            reveal_strlit("{\"event\":\"finished\",\"file\":");
            reveal_strlit("{\"event\":\"failed\",\"file\":");
            reveal_strlit(",\"bytes_total\":");
            reveal_strlit(",\"bytes_done\":");
            reveal_strlit(",\"target\":");
            reveal_strlit(",\"path\":");
            reveal_strlit(",\"reason\":");
            reveal_strlit("}");
        }
        match self {
            Progress::Started { file, bytes_total, target } => {
                let f = quote(file.as_str());
                let n = count(*bytes_total);
                let t = quote(target.as_str());
                proof {
                    let a = "{\"event\":\"started\",\"file\":"@;
                    lemma_one_line(a, f@);
                    lemma_one_line(a + f@, ",\"bytes_total\":"@);
                    lemma_one_line(a + f@ + ",\"bytes_total\":"@, n@);
                    lemma_one_line(a + f@ + ",\"bytes_total\":"@ + n@, ",\"target\":"@);
                    lemma_one_line(a + f@ + ",\"bytes_total\":"@ + n@ + ",\"target\":"@, t@);
                    lemma_one_line(
                        a + f@ + ",\"bytes_total\":"@ + n@ + ",\"target\":"@ + t@,
                        "}"@,
                    );
                }
                cat7(
                    "{\"event\":\"started\",\"file\":",
                    f.as_str(),
                    ",\"bytes_total\":",
                    n.as_str(),
                    ",\"target\":",
                    t.as_str(),
                    "}",
                )
            },
            Progress::Advanced { bytes_done, bytes_total } => {
                let d = number(*bytes_done);
                let n = count(*bytes_total);
                proof {
                    let a = "{\"event\":\"advanced\",\"bytes_done\":"@;
                    lemma_decimal_is_one_line(*bytes_done as nat);
                    lemma_one_line(a, d@);
                    lemma_one_line(a + d@, ",\"bytes_total\":"@);
                    lemma_one_line(a + d@ + ",\"bytes_total\":"@, n@);
                    lemma_one_line(a + d@ + ",\"bytes_total\":"@ + n@, "}"@);
                }
                cat5(
                    "{\"event\":\"advanced\",\"bytes_done\":",
                    d.as_str(),
                    ",\"bytes_total\":",
                    n.as_str(),
                    "}",
                )
            },
            Progress::Finished { file, bytes_done, path } => {
                let f = quote(file.as_str());
                let d = number(*bytes_done);
                let p = quote(path.as_str());
                proof {
                    let a = "{\"event\":\"finished\",\"file\":"@;
                    lemma_decimal_is_one_line(*bytes_done as nat);
                    lemma_one_line(a, f@);
                    lemma_one_line(a + f@, ",\"bytes_done\":"@);
                    lemma_one_line(a + f@ + ",\"bytes_done\":"@, d@);
                    lemma_one_line(a + f@ + ",\"bytes_done\":"@ + d@, ",\"path\":"@);
                    lemma_one_line(a + f@ + ",\"bytes_done\":"@ + d@ + ",\"path\":"@, p@);
                    lemma_one_line(
                        a + f@ + ",\"bytes_done\":"@ + d@ + ",\"path\":"@ + p@,
                        "}"@,
                    );
                }
                cat7(
                    "{\"event\":\"finished\",\"file\":",
                    f.as_str(),
                    ",\"bytes_done\":",
                    d.as_str(),
                    ",\"path\":",
                    p.as_str(),
                    "}",
                )
            },
            Progress::Failed { file, reason } => {
                let f = quote(file.as_str());
                let w = quote(reason.as_str());
                proof {
                    let a = "{\"event\":\"failed\",\"file\":"@;
                    lemma_one_line(a, f@);
                    lemma_one_line(a + f@, ",\"reason\":"@);
                    lemma_one_line(a + f@ + ",\"reason\":"@, w@);
                    lemma_one_line(a + f@ + ",\"reason\":"@ + w@, "}"@);
                }
                cat5(
                    "{\"event\":\"failed\",\"file\":",
                    f.as_str(),
                    ",\"reason\":",
                    w.as_str(),
                    "}",
                )
            },
        }
    }
}

/// How often to report. Every chunk would be thousands of lines for one file.
pub const REPORT_EVERY_BYTES: u64 = 8388608;

/// How far a transfer has come, and how far that has been reported.
#[derive(Debug, Clone, Copy, PartialEq, Eq, Structural)]
pub struct Transfer {
    pub done: u64,
    pub reported: u64,
}

impl Transfer {
    /// Nothing is reported that was not done.
    pub open spec fn wf(self) -> bool {
        self.reported <= self.done
    }

    pub fn new() -> (t: Transfer)
        ensures
            t.wf(),
            t.done == 0,
            t.reported == 0,
    {
        Transfer { done: 0, reported: 0 }
    }

    /// Counts a chunk, and says what to report where enough has come since the
    /// last report.
    pub fn advance(&mut self, n: u64) -> (r: Option<u64>)
        requires
            old(self).wf(),
            old(self).done + n <= u64::MAX,
        ensures
            final(self).wf(),
            final(self).done == old(self).done + n,
            if final(self).done - old(self).reported >= REPORT_EVERY_BYTES {
                r == Some(final(self).done) && final(self).reported == final(self).done
            } else {
                r is None && final(self).reported == old(self).reported
            },
    {
        self.done = self.done + n;
        if self.done - self.reported >= REPORT_EVERY_BYTES {
            self.reported = self.done;
            Some(self.done)
        } else {
            None
        }
    }

    /// Whether what came is all of it. A short read is a failed download, not
    /// a small model: placing it would publish a truncated file as a finished
    /// one.
    pub fn finish(&self, bytes_total: Option<u64>) -> (r: Result<(), String>)
        ensures
            match (r, bytes_total) {
                (Ok(()), Some(n)) => n == self.done,
                (Ok(()), None) => true,
                (Err(e), Some(n)) => n != self.done && e@ == short_text(n, self.done),
                (Err(_), None) => false,
            },
    {
        if let Some(n) = bytes_total {
            if n != self.done {
                return Err(
                    cat4(
                        "expected ",
                        number(n).as_str(),
                        " bytes, got ",
                        number(self.done).as_str(),
                    ),
                );
            }
        }
        Ok(())
    }
}

/// What a download is called until it is complete.
pub fn part_name(file_name: &str) -> (r: String)
    ensures
        r@ == file_name@ + ".part"@,
{
    cat2(file_name, ".part")
}

/// How a piece of a download's work went.
#[derive(Debug)]
pub enum Event {
    Begin,
    DirectoryMade(Result<(), String>),
    /// The server answered, with the header that tells the length where there
    /// was one.
    Answered(Result<Option<String>, String>),
    PartCreated(Result<(), String>),
    /// That many bytes came, or none because the stream is over.
    Read(Result<u64, String>),
    Written(Result<(), String>),
    Flushed(Result<(), String>),
    Placed(Result<(), String>),
}

/// What to do next.
#[derive(Debug)]
pub enum Command {
    MakeDirectory,
    Request,
    CreatePart,
    Read,
    /// Write what was just read to the part.
    Write,
    Flush,
    /// Rename the part to its final name.
    Place,
    /// It failed. Where `discard` is set the part goes with the failure:
    /// leaving it would put a truncated model where a provider looks.
    GiveUp { reason: String, discard: bool },
    Done,
}

/// What to report, if anything, and then what to do.
#[derive(Debug)]
pub struct Step {
    pub report: Option<Progress>,
    pub command: Command,
}

/// What a download waits to hear of.
#[derive(Debug, Clone, Copy, PartialEq, Eq, Structural)]
pub enum Stage {
    Start,
    Directory,
    Reply,
    Part,
    Read,
    Write,
    Flush,
    Place,
    Over,
}

/// What is waited for once a command was given.
pub open spec fn awaits(c: Command) -> Stage {
    match c {
        Command::MakeDirectory => Stage::Directory,
        Command::Request => Stage::Reply,
        Command::CreatePart => Stage::Part,
        Command::Read => Stage::Read,
        Command::Write => Stage::Write,
        Command::Flush => Stage::Flush,
        Command::Place => Stage::Place,
        Command::GiveUp { .. } => Stage::Over,
        Command::Done => Stage::Over,
    }
}

/// One file on its way to its place.
#[derive(Debug)]
pub struct Download {
    /// The directory it goes to.
    pub dir: String,
    pub file: String,
    /// Where it will stand, and what it is written to until then.
    pub path: String,
    pub part: String,
    pub bytes_total: Option<u64>,
    pub transfer: Transfer,
    /// How much was read and not yet written.
    pub pending: u64,
    pub stage: Stage,
}

/// A step that only goes on.
pub open spec fn goes_on(s: Step, c: Command) -> bool {
    s.report is None && s.command == c
}

/// A step that ends the download.
pub open spec fn gives_up(s: Step, why: Seq<char>, thrown_away: bool) -> bool {
    &&& s.report is None
    &&& s.command matches Command::GiveUp { reason, discard }
    &&& reason@ == why
    &&& discard == thrown_away
}

/// The length a header tells, where it tells one.
pub open spec fn told_length(header: Option<String>) -> Option<u64> {
    match header {
        Some(text) => match unsigned(text@) {
            Some(n) if n <= u64::MAX => Some(n as u64),
            _ => None,
        },
        None => None,
    }
}

/// Why a transfer that is over is not whole.
pub open spec fn short_text(expected: u64, got: u64) -> Seq<char> {
    "expected "@ + decimal(expected as nat) + " bytes, got "@ + decimal(got as nat)
}

/// Whether a step is the answer to an event.
pub open spec fn stepped(before: Download, event: Event, after: Download, s: Step) -> bool {
    &&& after.dir == before.dir
    &&& after.file == before.file
    &&& after.path == before.path
    &&& after.part == before.part
    &&& after.stage == awaits(s.command)
    &&& event is Answered || after.bytes_total == before.bytes_total
    &&& event is Written || after.transfer == before.transfer
    &&& event is Read || after.pending == before.pending
    &&& match event {
        Event::Begin => goes_on(s, Command::MakeDirectory),
        Event::DirectoryMade(Ok(())) => goes_on(s, Command::Request),
        Event::DirectoryMade(Err(e)) => gives_up(
            s,
            "cannot create "@ + before.dir@ + ": "@ + e@,
            false,
        ),
        Event::Answered(Ok(header)) => {
            &&& after.bytes_total == told_length(header)
            &&& s.report matches Some(Progress::Started { file, bytes_total, target })
            &&& file@ == before.file@
            &&& bytes_total == after.bytes_total
            &&& target@ == before.dir@
            &&& s.command == Command::CreatePart
        },
        Event::Answered(Err(e)) => after.bytes_total == before.bytes_total && gives_up(
            s,
            e@,
            false,
        ),
        Event::PartCreated(Ok(())) => goes_on(s, Command::Read),
        Event::PartCreated(Err(e)) => gives_up(
            s,
            "cannot write "@ + before.part@ + ": "@ + e@,
            false,
        ),
        Event::Read(Ok(n)) => after.pending == n && goes_on(
            s,
            if n == 0 {
                Command::Flush
            } else {
                Command::Write
            },
        ),
        Event::Read(Err(e)) => after.pending == before.pending && gives_up(
            s,
            "transfer failed after "@ + decimal(before.transfer.done as nat) + " bytes: "@ + e@,
            true,
        ),
        Event::Written(Ok(())) => {
            let done = before.transfer.done + before.pending;
            &&& after.transfer.done == done
            &&& s.command == Command::Read
            &&& if done - before.transfer.reported >= REPORT_EVERY_BYTES {
                &&& after.transfer.reported == done
                &&& s.report == Some(
                    Progress::Advanced { bytes_done: done as u64, bytes_total: before.bytes_total },
                )
            } else {
                after.transfer.reported == before.transfer.reported && s.report is None
            }
        },
        Event::Written(Err(e)) => after.transfer == before.transfer && gives_up(
            s,
            "write failed after "@ + decimal(before.transfer.done as nat) + " bytes: "@ + e@,
            true,
        ),
        Event::Flushed(Ok(())) => match before.bytes_total {
            Some(n) if n != before.transfer.done => gives_up(
                s,
                short_text(n, before.transfer.done),
                true,
            ),
            _ => goes_on(s, Command::Place),
        },
        Event::Flushed(Err(e)) => gives_up(
            s,
            "could not flush "@ + before.part@ + ": "@ + e@,
            true,
        ),
        Event::Placed(Ok(())) => {
            &&& s.report matches Some(Progress::Finished { file, bytes_done, path })
            &&& file@ == before.file@
            &&& bytes_done == before.transfer.done
            &&& path@ == before.path@
            &&& s.command == Command::Done
        },
        Event::Placed(Err(e)) => gives_up(
            s,
            "could not place "@ + before.path@ + ": "@ + e@,
            true,
        ),
    }
}

fn next(command: Command) -> (s: Step)
    ensures
        goes_on(s, command),
{
    Step { report: None, command }
}

fn stop(reason: String, discard: bool) -> (s: Step)
    ensures
        gives_up(s, reason@, discard),
{
    Step { report: None, command: Command::GiveUp { reason, discard } }
}

impl Download {
    /// A download of `file` into `dir`, to stand at `path` and be written to
    /// `part` until it is whole.
    pub fn new(dir: String, file: String, path: String, part: String) -> (d: Download)
        ensures
            d.dir == dir,
            d.file == file,
            d.path == path,
            d.part == part,
            d.bytes_total is None,
            d.transfer == (Transfer { done: 0, reported: 0 }),
            d.transfer.wf(),
            d.pending == 0,
            d.stage == Stage::Start,
    {
        Download {
            dir,
            file,
            path,
            part,
            bytes_total: None,
            transfer: Transfer::new(),
            pending: 0,
            stage: Stage::Start,
        }
    }

    /// Whether an event is the one that is waited for.
    pub open spec fn expects(self, e: Event) -> bool {
        match self.stage {
            Stage::Start => e is Begin,
            Stage::Directory => e is DirectoryMade,
            Stage::Reply => e is Answered,
            Stage::Part => e is PartCreated,
            Stage::Read => e is Read,
            Stage::Write => e is Written,
            Stage::Flush => e is Flushed,
            Stage::Place => e is Placed,
            Stage::Over => false,
        }
    }

    /// Takes in how the last thing went and says what to report and do next.
    pub fn step(&mut self, event: Event) -> (s: Step)
        requires
            old(self).transfer.wf(),
            old(self).expects(event),
            event is Written ==> old(self).transfer.done + old(self).pending <= u64::MAX,
        ensures
            final(self).transfer.wf(),
            stepped(*old(self), event, *final(self), s),
    {
        let s = self.answer(event);
        self.stage = match s.command {
            Command::MakeDirectory => Stage::Directory,
            Command::Request => Stage::Reply,
            Command::CreatePart => Stage::Part,
            Command::Read => Stage::Read,
            Command::Write => Stage::Write,
            Command::Flush => Stage::Flush,
            Command::Place => Stage::Place,
            Command::GiveUp { .. } => Stage::Over,
            Command::Done => Stage::Over,
        };
        s
    }

    fn answer(&mut self, event: Event) -> (s: Step)
        requires
            old(self).transfer.wf(),
            event is Written ==> old(self).transfer.done + old(self).pending <= u64::MAX,
        ensures
            final(self).transfer.wf(),
            stepped(
                *old(self),
                event,
                (Download { stage: awaits(s.command), ..*final(self) }),
                s,
            ),
    {
        match event {
            Event::Begin => next(Command::MakeDirectory),
            Event::DirectoryMade(Ok(())) => next(Command::Request),
            Event::DirectoryMade(Err(e)) => stop(
                cat4("cannot create ", self.dir.as_str(), ": ", e.as_str()),
                false,
            ),
            Event::Answered(Ok(header)) => {
                self.bytes_total = match &header {
                    Some(text) => parse_unsigned(text.as_str(), u64::MAX),
                    None => None,
                };
                Step {
                    report: Some(
                        Progress::Started {
                            file: self.file.clone(),
                            bytes_total: self.bytes_total,
                            target: self.dir.clone(),
                        },
                    ),
                    command: Command::CreatePart,
                }
            },
            Event::Answered(Err(e)) => stop(e, false),
            Event::PartCreated(Ok(())) => next(Command::Read),
            Event::PartCreated(Err(e)) => stop(
                cat4("cannot write ", self.part.as_str(), ": ", e.as_str()),
                false,
            ),
            Event::Read(Ok(n)) => {
                self.pending = n;
                if n == 0 {
                    next(Command::Flush)
                } else {
                    next(Command::Write)
                }
            },
            Event::Read(Err(e)) => stop(
                cat4(
                    "transfer failed after ",
                    number(self.transfer.done).as_str(),
                    " bytes: ",
                    e.as_str(),
                ),
                true,
            ),
            Event::Written(Ok(())) => {
                let n: u64 = self.pending;
                let report = match self.transfer.advance(n) {
                    Some(bytes_done) => Some(
                        Progress::Advanced { bytes_done, bytes_total: self.bytes_total },
                    ),
                    None => None,
                };
                Step { report, command: Command::Read }
            },
            Event::Written(Err(e)) => stop(
                cat4(
                    "write failed after ",
                    number(self.transfer.done).as_str(),
                    " bytes: ",
                    e.as_str(),
                ),
                true,
            ),
            Event::Flushed(Ok(())) => match self.transfer.finish(self.bytes_total) {
                Ok(()) => next(Command::Place),
                Err(reason) => stop(reason, true),
            },
            Event::Flushed(Err(e)) => stop(
                cat4("could not flush ", self.part.as_str(), ": ", e.as_str()),
                true,
            ),
            Event::Placed(Ok(())) => Step {
                report: Some(
                    Progress::Finished {
                        file: self.file.clone(),
                        bytes_done: self.transfer.done,
                        path: self.path.clone(),
                    },
                ),
                command: Command::Done,
            },
            Event::Placed(Err(e)) => stop(
                cat4("could not place ", self.path.as_str(), ": ", e.as_str()),
                true,
            ),
        }
    }
}

/// Nothing half-written is placed: a part is renamed only once the stream was
/// read to its end and flushed, and only with every byte that was announced.
pub proof fn only_a_whole_file_is_placed(
    before: Download,
    event: Event,
    after: Download,
    s: Step,
)
    requires
        stepped(before, event, after, s),
        s.command is Place,
    ensures
        event is Flushed && event->Flushed_0 is Ok,
        after.bytes_total matches Some(n) ==> n == after.transfer.done,
{
}

/// A failure takes its part with it: whatever fails once the part is there has
/// it discarded, and nothing is discarded before.
pub proof fn a_failure_takes_its_part_with_it(
    before: Download,
    event: Event,
    after: Download,
    s: Step,
    reason: String,
    discard: bool,
)
    requires
        stepped(before, event, after, s),
        s.command == (Command::GiveUp { reason, discard }),
    ensures
        discard <==> (event is Read || event is Written || event is Flushed || event is Placed),
{
}

/// A download is reported finished exactly when its file has been placed.
pub proof fn finished_means_placed(before: Download, event: Event, after: Download, s: Step)
    requires
        stepped(before, event, after, s),
    ensures
        (s.report is Some && s.report->0 is Finished) <==> (event is Placed && event->Placed_0 is Ok),
        s.command is Done <==> (event is Placed && event->Placed_0 is Ok),
{
}

/// One step of a download that was taken.
pub struct Moment {
    pub before: Download,
    pub event: Event,
    pub after: Download,
    pub step: Step,
}

/// Whether a step answers what was waited for.
pub open spec fn taken(m: Moment) -> bool {
    m.before.expects(m.event) && stepped(m.before, m.event, m.after, m.step)
}

/// Whether steps are a download from its start on: each answers what was waited
/// for, and takes up where the one before left off.
pub open spec fn unfolds(h: Seq<Moment>) -> bool {
    &&& h.len() > 0 ==> h[0].before.stage == Stage::Start && h[0].before.transfer.done == 0
    &&& forall|i: int| 0 <= i < h.len() ==> #[trigger] taken(h[i])
    &&& forall|i: int, j: int|
        0 <= i < h.len() && 0 <= j < h.len() && j == i + 1 ==> (#[trigger] h[j]).before == (
        #[trigger] h[i]).after
}

/// How much a step read.
pub open spec fn read_in(m: Moment) -> nat {
    match m.event {
        Event::Read(Ok(n)) => n as nat,
        _ => 0,
    }
}

/// What was written, and what was read and waits to be.
pub open spec fn in_hand(d: Download) -> nat {
    d.transfer.done as nat + if d.stage == Stage::Write {
        d.pending as nat
    } else {
        0
    }
}

/// A step takes into hand what it read, and loses nothing.
proof fn lemma_a_step_counts(m: Moment)
    requires
        taken(m),
        !(m.step.command is GiveUp),
    ensures
        in_hand(m.after) == in_hand(m.before) + read_in(m),
{
}

/// The front of a download is one.
proof fn lemma_front_unfolds(h: Seq<Moment>)
    requires
        unfolds(h),
        h.len() > 1,
    ensures
        unfolds(h.drop_last()),
        h.last().before == h.drop_last().last().after,
        !(h.drop_last().last().step.command is GiveUp),
{
    let front = h.drop_last();
    let n = h.len() - 1;
    assert(front[0] == h[0]);
    assert forall|i: int| 0 <= i < front.len() implies #[trigger] taken(front[i]) by {
        assert(taken(h[i]));
    }
    assert forall|i: int, j: int|
        0 <= i < front.len() && 0 <= j < front.len() && j == i + 1 implies (
    #[trigger] front[j]).before == (#[trigger] front[i]).after by {
        assert(front[i] == h[i] && front[j] == h[j]);
    }
    lemma_not_over(h[n - 1], h[n]);
}

/// A step that another follows did not end the download.
proof fn lemma_not_over(a: Moment, b: Moment)
    requires
        taken(a),
        taken(b),
        b.before == a.after,
    ensures
        !(a.step.command is GiveUp),
        b.event is Flushed ==> a.event == Event::Read(Ok(0)),
{
}

/// Whatever was read is in hand.
proof fn lemma_everything_is_counted(h: Seq<Moment>)
    requires
        unfolds(h),
        h.len() > 0,
        !(h.last().step.command is GiveUp),
    ensures
        total(h, |m: Moment| read_in(m)) == in_hand(h.last().after),
    decreases h.len(),
{
    let last = h[h.len() - 1];
    assert(taken(last));
    lemma_a_step_counts(last);
    if h.len() == 1 {
        assert(total(h.drop_last(), |m: Moment| read_in(m)) == 0);
    } else {
        lemma_front_unfolds(h);
        lemma_everything_is_counted(h.drop_last());
    }
}

/// A file is placed only once its stream was read to its end: over a whole
/// download, the rename comes right behind a flush, that right behind a read
/// that found nothing left, and every byte that was read has been written.
pub proof fn a_placed_file_was_read_to_its_end(h: Seq<Moment>)
    requires
        unfolds(h),
        h.len() > 0,
        h.last().step.command is Place,
    ensures
        h.len() >= 2,
        h.last().event is Flushed && h.last().event->Flushed_0 is Ok,
        h[h.len() - 2].event == Event::Read(Ok(0)),
        h.last().after.transfer.done == total(h, |m: Moment| read_in(m)),
        h.last().after.bytes_total matches Some(n) ==> n == h.last().after.transfer.done,
{
    let last = h[h.len() - 1];
    assert(taken(last));
    only_a_whole_file_is_placed(last.before, last.event, last.after, last.step);
    if h.len() > 1 {
        let prior = h[h.len() - 2];
        assert(taken(prior));
        lemma_not_over(prior, last);
    }
    lemma_everything_is_counted(h);
}

} // verus!
