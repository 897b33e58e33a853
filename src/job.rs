//! The decisions of a conversion job.
//!
//! A job runs four workers beside the transcoder: one writes to its input,
//! one reads its output, one reads its diagnostic stream and one waits for it
//! to exit. Each worker performs its reads and writes itself and asks the
//! functions here what to do with what it saw. The workers share two flags,
//! held in a [`JobState`], and send what they find as [`Message`]s.
use vstd::prelude::*;
use crate::time_parsing::{
    Duration, Progress, duration_in, extract_duration, extract_frame_time, frame_time_in,
    frame_word, frame_word_bytes, matches_at, occurs_at, progress_from_durations, progress_of,
};

verus! {

/// The byte that asks the transcoder to stop early when written to its input.
pub const QUIT_SIGNAL: u8 = 113;

/// A failure of a job.
#[derive(Clone, Debug, PartialEq, Eq)]
pub enum Error {
    /// The transcoder exited with this code, which is above zero.
    ExitCode(i32),
    /// The job was cancelled on request.
    Cancelled,
    /// Waiting for the transcoder failed, for the cause given.
    ChildProcess(String),
    /// The transcoder exited without writing anything to its output.
    EmptyStdout,
}

/// What a job tells the application.
#[derive(Clone, Debug, PartialEq, Eq)]
pub enum Message {
    /// The bytes of the animated GIF.
    Success(Vec<u8>),
    /// A failure.
    Error(Error),
    /// How far the transcoder has come.
    Progress(Progress),
    /// The length of the video; sent before any progress.
    VideoDuration(Duration),
    /// The job is over: nothing follows.
    Done,
}

/// A request from the application to a job.
#[derive(Clone, Copy, Debug, PartialEq, Eq, Structural)]
pub enum Command {
    /// Stop the job early.
    Cancel,
}

/// The flags that the workers of one job share.
#[derive(Clone, Copy, Debug, PartialEq, Eq, Structural)]
pub struct JobState {
    /// A cancellation has been received and passed on to the transcoder.
    pub cancelled: bool,
    /// The transcoder's output stream has closed.
    pub ended: bool,
}

impl JobState {
    pub fn new() -> (r: JobState)
        ensures
            !r.cancelled,
            !r.ended,
    {
        JobState { cancelled: false, ended: false }
    }

    pub fn set_cancelled(&mut self)
        ensures
            final(self).cancelled,
            final(self).ended == old(self).ended,
    {
        self.cancelled = true;
    }

    pub fn set_ended(&mut self)
        ensures
            final(self).ended,
            final(self).cancelled == old(self).cancelled,
    {
        self.ended = true;
    }
}

/// What the input worker found on polling the command channel.
#[derive(Clone, Copy, Debug, PartialEq, Eq, Structural)]
pub enum Poll {
    /// A command was waiting.
    Received(Command),
    /// No command was waiting.
    Empty,
    /// Every sender of commands is gone.
    Disconnected,
}

/// What the input worker does next.
#[derive(Clone, Debug, PartialEq, Eq)]
pub enum StdinAction {
    /// Write `signal` to the transcoder's input, send `confirmation`, mark the
    /// job cancelled, and stop.
    Quit { signal: u8, confirmation: Message },
    /// Stop without doing anything more.
    Close,
    /// Sleep a little, then poll again.
    Wait,
}

/// The input worker's decision after a poll, given whether the output stream
/// has closed: a cancellation is passed on, a closed channel or an ended job
/// stops the worker, and otherwise it polls again.
pub open spec fn stdin_decision(poll: Poll, ended: bool) -> StdinAction {
    match poll {
        Poll::Received(Command::Cancel) => StdinAction::Quit {
            signal: QUIT_SIGNAL,
            confirmation: Message::Error(Error::Cancelled),
        },
        Poll::Disconnected => StdinAction::Close,
        Poll::Empty => if ended {
            StdinAction::Close
        } else {
            StdinAction::Wait
        },
    }
}

/// Computes [`stdin_decision`].
pub fn stdin_next(poll: Poll, ended: bool) -> (r: StdinAction)
    ensures
        r == stdin_decision(poll, ended),
{
    match poll {
        Poll::Received(Command::Cancel) => StdinAction::Quit {
            signal: QUIT_SIGNAL,
            confirmation: Message::Error(Error::Cancelled),
        },
        Poll::Disconnected => StdinAction::Close,
        Poll::Empty => if ended {
            StdinAction::Close
        } else {
            StdinAction::Wait
        },
    }
}

/// The messages that the input worker sends over a run of polls, each given
/// with the value of the ended flag read beside it. The worker acts on each
/// decision in turn and stops at the first that is not a wait.
pub open spec fn stdin_run(polls: Seq<(Poll, bool)>) -> Seq<Message>
    decreases polls.len(),
{
    if polls.len() == 0 {
        Seq::<Message>::empty()
    } else {
        match stdin_decision(polls[0].0, polls[0].1) {
            StdinAction::Quit { signal, confirmation } => seq![confirmation],
            StdinAction::Close => Seq::<Message>::empty(),
            StdinAction::Wait => stdin_run(polls.drop_first()),
        }
    }
}

proof fn lemma_stdin_run_at_most_one(polls: Seq<(Poll, bool)>)
    ensures
        stdin_run(polls).len() <= 1,
        stdin_run(polls).len() == 1 ==> stdin_run(polls)[0] == Message::Error(Error::Cancelled),
    decreases polls.len(),
{
    if polls.len() > 0 {
        lemma_stdin_run_at_most_one(polls.drop_first());
    }
}

/// The input worker confirms a cancellation at most once. Where it polls
/// nothing while the job runs and then reads a cancellation, it confirms
/// it exactly once; where it instead sees the job ended first, it sends
/// nothing, whatever commands come after.
pub proof fn lemma_stdin_confirms_once(polls: Seq<(Poll, bool)>, k: int)
    requires
        0 <= k < polls.len(),
        forall|i: int| 0 <= i < k ==> #[trigger] polls[i] == (Poll::Empty, false),
    ensures
        stdin_run(polls).len() <= 1,
        stdin_run(polls).len() == 1 ==> stdin_run(polls)[0] == Message::Error(Error::Cancelled),
        polls[k].0 == Poll::Received(Command::Cancel) ==> stdin_run(polls) == seq![
            Message::Error(Error::Cancelled),
        ],
        polls[k] == (Poll::Empty, true) ==> stdin_run(polls) == Seq::<Message>::empty(),
    decreases k,
{
    lemma_stdin_run_at_most_one(polls);
    if k > 0 {
        let rest = polls.drop_first();
        assert(polls[0] == (Poll::Empty, false));
        assert forall|i: int| 0 <= i < k - 1 implies #[trigger] rest[i] == (Poll::Empty, false) by {
            assert(rest[i] == polls[i + 1]);
        }
        assert(rest[k - 1] == polls[k]);
        lemma_stdin_confirms_once(rest, k - 1);
    }
}

/// What the output worker sends once the output stream has closed holding
/// `output`: nothing after a cancellation, else the bytes, or the failure of
/// an empty output.
pub fn stdout_outcome(output: Vec<u8>, cancelled: bool) -> (r: Option<Message>)
    ensures
        cancelled ==> r is None,
        !cancelled && output@.len() == 0 ==> r == Some(Message::Error(Error::EmptyStdout)),
        !cancelled && output@.len() > 0 ==> r == Some(Message::Success(output)),
{
    if cancelled {
        None
    } else if output.len() == 0 {
        Some(Message::Error(Error::EmptyStdout))
    } else {
        Some(Message::Success(output))
    }
}

/// How the wait for the transcoder ended: its exit code, where it has one, or
/// the cause of the failure to wait.
pub type WaitOutcome = Result<Option<i32>, String>;

/// What the exit worker sends once the wait for the transcoder is over: a
/// failure for an exit code above zero or for a failed wait, else nothing.
pub fn exit_outcome(outcome: WaitOutcome) -> (r: Option<Message>)
    ensures
        r == match outcome {
            Ok(Some(code)) => if code > 0 {
                Some(Message::Error(Error::ExitCode(code)))
            } else {
                None
            },
            Ok(None) => None,
            Err(cause) => Some(Message::Error(Error::ChildProcess(cause))),
        },
{
    match outcome {
        Ok(Some(code)) => if code > 0 {
            Some(Message::Error(Error::ExitCode(code)))
        } else {
            None
        },
        Ok(None) => None,
        Err(cause) => Some(Message::Error(Error::ChildProcess(cause))),
    }
}

/// The diagnostic stream's worker: it looks for the length of the video in
/// the text read so far, then turns each progress record into a progress
/// message.
pub struct StderrReader {
    /// The length of the video, once found.
    duration: Option<Duration>,
    /// All text read while the length was still unknown.
    text: Vec<u8>,
}

/// The abstract state of a [`StderrReader`].
pub struct StderrView {
    pub duration: Option<Duration>,
    pub text: Seq<u8>,
}

impl View for StderrReader {
    type V = StderrView;

    closed spec fn view(&self) -> StderrView {
        StderrView { duration: self.duration, text: self.text@ }
    }
}

/// What the diagnostic stream's worker does after a read.
#[derive(Clone, Debug, PartialEq, Eq)]
pub enum StderrStep {
    /// Stop reading.
    Close,
    /// Send these messages, in this order, and read on.
    Send(Vec<Message>),
}

/// The state of the diagnostic stream's worker after it reads `chunk`: while
/// the length of the video is unknown, the chunk joins the text, and the
/// length is looked for in the whole text.
pub open spec fn stderr_after(m: StderrView, chunk: Seq<u8>) -> StderrView {
    match m.duration {
        Some(_) => m,
        None => StderrView { duration: duration_in(m.text + chunk), text: m.text + chunk },
    }
}

/// The messages sent on reading `chunk`: the length of the video where this
/// read found it, then the progress where the chunk opens with `frame=`, holds
/// a time, and the length is known and not zero.
pub open spec fn stderr_messages(m: StderrView, chunk: Seq<u8>) -> Seq<Message> {
    let after = stderr_after(m, chunk);
    let announced = match (m.duration, after.duration) {
        (None, Some(d)) => seq![Message::VideoDuration(d)],
        _ => Seq::<Message>::empty(),
    };
    let progress = match (after.duration, frame_time_in(chunk)) {
        (Some(d), Some(t)) => if occurs_at(chunk, frame_word(), 0) && d.millis > 0 {
            seq![Message::Progress(progress_of(d, t))]
        } else {
            Seq::<Message>::empty()
        },
        _ => Seq::<Message>::empty(),
    };
    announced + progress
}

impl StderrReader {
    pub fn new() -> (r: StderrReader)
        ensures
            r@.duration is None,
            r@.text == Seq::<u8>::empty(),
    {
        StderrReader { duration: None, text: Vec::new() }
    }

    /// The length of the video, once found.
    pub fn duration(&self) -> (r: Option<Duration>)
        ensures
            r == self@.duration,
    {
        self.duration
    }

    /// Takes in what one read returned, `chunk`, with an empty chunk for the
    /// end of the stream, given whether the job has been cancelled. After a
    /// cancellation or at the end of the stream the worker stops.
    pub fn on_chunk(&mut self, chunk: &[u8], cancelled: bool) -> (r: StderrStep)
        ensures
            cancelled || chunk@.len() == 0 ==> r == StderrStep::Close && final(self)@ == old(
                self,
            )@,
            !cancelled && chunk@.len() > 0 ==> final(self)@ == stderr_after(old(self)@, chunk@)
                && match r {
                StderrStep::Send(msgs) => msgs@ == stderr_messages(old(self)@, chunk@),
                StderrStep::Close => false,
            },
    {
        if cancelled || chunk.len() == 0 {
            return StderrStep::Close;
        }
        let mut msgs: Vec<Message> = Vec::new();
        if self.duration.is_none() {
            let mut i: usize = 0;
            while i < chunk.len()
                invariant
                    i <= chunk@.len(),
                    self.text@ == old(self)@.text + chunk@.subrange(0, i as int),
                    self.duration == old(self)@.duration,
                decreases chunk.len() - i,
            {
                self.text.push(chunk[i]);
                i = i + 1;
                proof {
                    assert(self.text@ =~= old(self)@.text + chunk@.subrange(0, i as int));
                }
            }
            proof {
                assert(chunk@.subrange(0, chunk@.len() as int) =~= chunk@);
            }
            let found = extract_duration(self.text.as_slice());
            if let Some(d) = found {
                msgs.push(Message::VideoDuration(d));
            }
            self.duration = found;
        }
        let word = frame_word_bytes();
        if matches_at(chunk, word.as_slice(), 0) {
            if let Some(t) = extract_frame_time(chunk) {
                if let Some(d) = self.duration {
                    if d.millis > 0 {
                        msgs.push(Message::Progress(progress_from_durations(d, t)));
                    }
                }
            }
        }
        assert(msgs@ =~= stderr_messages(old(self)@, chunk@));
        StderrStep::Send(msgs)
    }
}

/// The state of the diagnostic stream's worker, and all it has sent, after
/// it reads `chunks` in turn from state `m` with no cancellation.
pub open spec fn stderr_run(m: StderrView, chunks: Seq<Seq<u8>>) -> (StderrView, Seq<Message>)
    decreases chunks.len(),
{
    if chunks.len() == 0 {
        (m, Seq::<Message>::empty())
    } else {
        let (before, sent) = stderr_run(m, chunks.drop_last());
        (stderr_after(before, chunks.last()), sent + stderr_messages(before, chunks.last()))
    }
}

/// The time that a chunk reports as reached: the time of its last progress
/// record, where the chunk opens with `frame=`.
pub open spec fn reported_time(chunk: Seq<u8>) -> Option<Duration> {
    if occurs_at(chunk, frame_word(), 0) {
        frame_time_in(chunk)
    } else {
        None
    }
}

/// Each chunk that reports a time reports no less than every chunk before it.
pub open spec fn times_increase(chunks: Seq<Seq<u8>>) -> bool {
    forall|i: int, j: int|
        #![trigger reported_time(chunks[i]), reported_time(chunks[j])]
        0 <= i < j < chunks.len() && reported_time(chunks[i]) is Some && reported_time(
            chunks[j],
        ) is Some ==> reported_time(chunks[i])->Some_0.millis <= reported_time(
            chunks[j],
        )->Some_0.millis
}

/// What is sent once the length `d` is known: the length first, then only
/// progress, each a share of `d` no larger than the whole.
pub open spec fn duration_then_progress(sent: Seq<Message>, d: Duration) -> bool {
    &&& sent.len() >= 1
    &&& sent[0] == Message::VideoDuration(d)
    &&& forall|k: int|
        1 <= k < sent.len() ==> (#[trigger] sent[k]) is Progress && sent[k]->Progress_0.total
            == d.millis && sent[k]->Progress_0.done <= d.millis
}

/// The progress sent never falls.
pub open spec fn progress_never_falls(sent: Seq<Message>) -> bool {
    forall|a: int, b: int|
        1 <= a < b < sent.len() ==> (#[trigger] sent[a])->Progress_0.done <= (#[trigger] sent[b])->Progress_0.done
}

proof fn lemma_stderr_prefix(m: StderrView, chunks: Seq<Seq<u8>>, n: int)
    requires
        m.duration is None,
        0 <= n <= chunks.len(),
        times_increase(chunks),
    ensures
        ({
            let (state, sent) = stderr_run(m, chunks.subrange(0, n));
            &&& state.duration is None ==> sent.len() == 0
            &&& state.duration matches Some(d) ==> {
                &&& duration_then_progress(sent, d)
                &&& progress_never_falls(sent)
                &&& forall|k: int, j: int|
                    #![trigger sent[k], reported_time(chunks[j])]
                    1 <= k < sent.len() && n <= j < chunks.len() && reported_time(chunks[j]) is Some
                        ==> sent[k]->Progress_0.done <= progress_of(
                        d,
                        reported_time(chunks[j])->Some_0,
                    ).done
            }
        }),
    decreases n,
{
    if n == 0 {
        assert(chunks.subrange(0, 0) =~= Seq::<Seq<u8>>::empty());
    } else {
        lemma_stderr_prefix(m, chunks, n - 1);
        let prefix = chunks.subrange(0, n);
        assert(prefix.drop_last() =~= chunks.subrange(0, n - 1));
        let c = chunks[n - 1];
        assert(prefix.last() == c);
        let (before, sent0) = stderr_run(m, chunks.subrange(0, n - 1));
        let after = stderr_after(before, c);
        let new = stderr_messages(before, c);
        let sent = sent0 + new;
        assert(stderr_run(m, prefix) == (after, sent));
        if let Some(d) = after.duration {
            let t_opt = reported_time(c);
            assert forall|k: int|
                1 <= k < sent.len() implies (#[trigger] sent[k]) is Progress
                    && sent[k]->Progress_0.total == d.millis && sent[k]->Progress_0.done
                    <= d.millis by {
                if k >= sent0.len() {
                    assert(sent[k] == new[k - sent0.len()]);
                } else {
                    assert(sent[k] == sent0[k]);
                }
            }
            assert(sent[0] == Message::VideoDuration(d)) by {
                if sent0.len() == 0 {
                    assert(sent[0] == new[0]);
                } else {
                    assert(sent[0] == sent0[0]);
                }
            }
            assert forall|a: int, b: int| 1 <= a < b < sent.len() implies (#[trigger] sent[a])->Progress_0.done <= (#[trigger] sent[b])->Progress_0.done by {
                if b >= sent0.len() {
                    assert(sent[b] == new[b - sent0.len()]);
                    assert(t_opt is Some);
                    assert(sent[b] == Message::Progress(progress_of(d, t_opt->Some_0)));
                    if a < sent0.len() {
                        assert(sent[a] == sent0[a]);
                        assert(reported_time(chunks[n - 1]) is Some);
                    }
                } else {
                    assert(sent[a] == sent0[a]);
                    assert(sent[b] == sent0[b]);
                }
            }
            assert forall|k: int, j: int|
                #![trigger sent[k], reported_time(chunks[j])]
                1 <= k < sent.len() && n <= j < chunks.len() && reported_time(chunks[j]) is Some
                    implies sent[k]->Progress_0.done <= progress_of(
                d,
                reported_time(chunks[j])->Some_0,
            ).done by {
                if k >= sent0.len() {
                    assert(sent[k] == new[k - sent0.len()]);
                    assert(reported_time(chunks[n - 1]) is Some);
                } else {
                    assert(sent[k] == sent0[k]);
                }
            }
        } else {
            assert(new =~= Seq::<Message>::empty());
            assert(sent =~= sent0);
        }
    }
}

/// Reading a diagnostic stream in chunks sends nothing until the length of
/// the video is found, then that length once, as the first message, then
/// only progress, each between zero and the whole; where the times reported
/// by the chunks never fall, neither does the progress.
pub proof fn lemma_stderr_messages(chunks: Seq<Seq<u8>>)
    requires
        times_increase(chunks),
    ensures
        ({
            let (state, sent) = stderr_run(
                StderrView { duration: None, text: Seq::<u8>::empty() },
                chunks,
            );
            &&& state.duration is None ==> sent.len() == 0
            &&& state.duration matches Some(d) ==> duration_then_progress(sent, d)
                && progress_never_falls(sent)
        }),
{
    lemma_stderr_prefix(StderrView { duration: None, text: Seq::<u8>::empty() }, chunks, chunks.len() as int);
    assert(chunks.subrange(0, chunks.len() as int) =~= chunks);
}

/// The progress messages sent for `chunks` once the length `d` is known:
/// one for each chunk that reports a time, where `d` is not zero.
pub open spec fn progress_seq(chunks: Seq<Seq<u8>>, d: Duration) -> Seq<Message>
    decreases chunks.len(),
{
    if chunks.len() == 0 {
        Seq::<Message>::empty()
    } else {
        progress_seq(chunks.drop_last(), d) + match reported_time(chunks.last()) {
            Some(t) => if d.millis > 0 {
                seq![Message::Progress(progress_of(d, t))]
            } else {
                Seq::<Message>::empty()
            },
            None => Seq::<Message>::empty(),
        }
    }
}

proof fn lemma_run_append(m: StderrView, a: Seq<Seq<u8>>, b: Seq<Seq<u8>>)
    ensures
        stderr_run(m, a + b) == (
            stderr_run(stderr_run(m, a).0, b).0,
            stderr_run(m, a).1 + stderr_run(stderr_run(m, a).0, b).1,
        ),
    decreases b.len(),
{
    let x = stderr_run(m, a).0;
    if b.len() == 0 {
        assert(a + b =~= a);
        assert(stderr_run(m, a).1 + Seq::<Message>::empty() =~= stderr_run(m, a).1);
    } else {
        lemma_run_append(m, a, b.drop_last());
        assert((a + b).drop_last() =~= a + b.drop_last());
        assert((a + b).last() == b.last());
        let (y, sb) = stderr_run(x, b.drop_last());
        assert(stderr_run(m, a).1 + sb + stderr_messages(y, b.last()) =~= stderr_run(m, a).1 + (sb
            + stderr_messages(y, b.last())));
    }
}

proof fn lemma_run_known(m: StderrView, chunks: Seq<Seq<u8>>, d: Duration)
    requires
        m.duration == Some(d),
    ensures
        stderr_run(m, chunks) == (m, progress_seq(chunks, d)),
    decreases chunks.len(),
{
    if chunks.len() > 0 {
        lemma_run_known(m, chunks.drop_last(), d);
        let c = chunks.last();
        assert(stderr_messages(m, c) =~= match reported_time(c) {
            Some(t) => if d.millis > 0 {
                seq![Message::Progress(progress_of(d, t))]
            } else {
                Seq::<Message>::empty()
            },
            None => Seq::<Message>::empty(),
        });
    }
}

proof fn lemma_run_head(head: Seq<Seq<u8>>)
    requires
        forall|i: int| 0 <= i < head.len() ==> !occurs_at(#[trigger] head[i], frame_word(), 0),
    ensures
        ({
            let (state, sent) = stderr_run(
                StderrView { duration: None, text: Seq::<u8>::empty() },
                head,
            );
            &&& state.duration is None ==> sent == Seq::<Message>::empty()
            &&& state.duration matches Some(d) ==> sent == seq![Message::VideoDuration(d)]
        }),
    decreases head.len(),
{
    if head.len() > 0 {
        lemma_run_head(head.drop_last());
        let c = head.last();
        assert(!occurs_at(head[head.len() - 1], frame_word(), 0));
        let (before, sent0) = stderr_run(
            StderrView { duration: None, text: Seq::<u8>::empty() },
            head.drop_last(),
        );
        let new = stderr_messages(before, c);
        if before.duration is Some {
            assert(new =~= Seq::<Message>::empty());
            assert(sent0 + new =~= sent0);
        } else {
            assert(sent0 + new =~= new);
            if stderr_after(before, c).duration is Some {
                assert(new =~= seq![Message::VideoDuration(stderr_after(before, c).duration->Some_0)]);
            } else {
                assert(new =~= Seq::<Message>::empty());
            }
        }
    }
}

/// A diagnostic stream read as opening chunks, none of which opens with
/// `frame=` and which together give the length `d` of the video, then
/// `frames`: the messages sent are the length once, then one progress for
/// each of `frames` that reports a time, in order. Where `d` is not zero and
/// every one of `frames` reports a time, there are as many progress messages
/// as `frames`, the i-th being `progress_of(d, t_i)`, each between zero and
/// the whole, and they never fall while the reported times do not.
pub proof fn lemma_stderr_transcript(head: Seq<Seq<u8>>, frames: Seq<Seq<u8>>, d: Duration)
    requires
        forall|i: int| 0 <= i < head.len() ==> !occurs_at(#[trigger] head[i], frame_word(), 0),
        stderr_run(StderrView { duration: None, text: Seq::<u8>::empty() }, head).0.duration
            == Some(d),
    ensures
        stderr_run(StderrView { duration: None, text: Seq::<u8>::empty() }, head + frames).1
            == seq![Message::VideoDuration(d)] + progress_seq(frames, d),
        d.millis > 0 && (forall|i: int| 0 <= i < frames.len() ==> (#[trigger] reported_time(frames[i])) is Some)
            ==> {
            &&& progress_seq(frames, d).len() == frames.len()
            &&& forall|i: int|
                0 <= i < frames.len() ==> #[trigger] progress_seq(frames, d)[i] == Message::Progress(
                    progress_of(d, reported_time(frames[i])->Some_0),
                ) && progress_of(d, reported_time(frames[i])->Some_0).done <= d.millis
            &&& times_increase(frames) ==> forall|i: int, j: int|
                0 <= i < j < frames.len() ==> (#[trigger] progress_seq(frames, d)[i])->Progress_0.done
                    <= (#[trigger] progress_seq(frames, d)[j])->Progress_0.done
        },
{
    let init = StderrView { duration: None, text: Seq::<u8>::empty() };
    lemma_run_head(head);
    lemma_run_append(init, head, frames);
    lemma_run_known(stderr_run(init, head).0, frames, d);
    if d.millis > 0 && (forall|i: int| 0 <= i < frames.len() ==> (#[trigger] reported_time(frames[i])) is Some) {
        lemma_progress_seq_exact(frames, d);
        if times_increase(frames) {
            assert forall|i: int, j: int|
                0 <= i < j < frames.len() implies (#[trigger] progress_seq(frames, d)[i])->Progress_0.done
                    <= (#[trigger] progress_seq(frames, d)[j])->Progress_0.done by {
                assert(reported_time(frames[i]) is Some);
                assert(reported_time(frames[j]) is Some);
            }
        }
    }
}

proof fn lemma_progress_seq_exact(frames: Seq<Seq<u8>>, d: Duration)
    requires
        d.millis > 0,
        forall|i: int| 0 <= i < frames.len() ==> (#[trigger] reported_time(frames[i])) is Some,
    ensures
        progress_seq(frames, d).len() == frames.len(),
        forall|i: int|
            0 <= i < frames.len() ==> #[trigger] progress_seq(frames, d)[i] == Message::Progress(
                progress_of(d, reported_time(frames[i])->Some_0),
            ),
    decreases frames.len(),
{
    if frames.len() > 0 {
        let f = frames.drop_last();
        assert forall|i: int| 0 <= i < f.len() implies (#[trigger] reported_time(f[i])) is Some by {
            assert(f[i] == frames[i]);
        }
        lemma_progress_seq_exact(f, d);
        assert(reported_time(frames[frames.len() - 1]) is Some);
        assert forall|i: int| 0 <= i < frames.len() implies #[trigger] progress_seq(frames, d)[i]
            == Message::Progress(progress_of(d, reported_time(frames[i])->Some_0)) by {
            if i < f.len() {
                assert(f[i] == frames[i]);
                assert(progress_seq(frames, d)[i] == progress_seq(f, d)[i]);
            }
        }
    }
}

} // verus!
