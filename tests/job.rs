use ffmpeg_gif_maker::{
    exit_outcome, stdin_next, stdout_outcome, Command, Duration, Error, JobState, Message, Poll,
    Progress, StderrReader, StderrStep, StdinAction, QUIT_SIGNAL,
};

fn cancelled_action() -> StdinAction {
    StdinAction::Quit { signal: b'q', confirmation: Message::Error(Error::Cancelled) }
}

#[test]
fn quit_signal_is_q() {
    assert_eq!(QUIT_SIGNAL, b'q');
}

#[test]
fn stdin_worker_decisions() {
    assert_eq!(stdin_next(Poll::Received(Command::Cancel), false), cancelled_action());
    assert_eq!(stdin_next(Poll::Received(Command::Cancel), true), cancelled_action());
    assert_eq!(stdin_next(Poll::Empty, false), StdinAction::Wait);
    assert_eq!(stdin_next(Poll::Empty, true), StdinAction::Close);
    assert_eq!(stdin_next(Poll::Disconnected, false), StdinAction::Close);
    assert_eq!(stdin_next(Poll::Disconnected, true), StdinAction::Close);
}

#[test]
fn stdout_worker_outcomes() {
    assert_eq!(stdout_outcome(vec![1, 2, 3], false), Some(Message::Success(vec![1, 2, 3])));
    assert_eq!(stdout_outcome(vec![], false), Some(Message::Error(Error::EmptyStdout)));
    assert_eq!(stdout_outcome(vec![1, 2, 3], true), None);
    assert_eq!(stdout_outcome(vec![], true), None);
}

#[test]
fn exit_worker_outcomes() {
    assert_eq!(exit_outcome(Ok(Some(1))), Some(Message::Error(Error::ExitCode(1))));
    assert_eq!(exit_outcome(Ok(Some(0))), None);
    assert_eq!(exit_outcome(Ok(Some(-1))), None);
    assert_eq!(exit_outcome(Ok(None)), None);
    assert_eq!(
        exit_outcome(Err("no such process".to_string())),
        Some(Message::Error(Error::ChildProcess("no such process".to_string())))
    );
}

#[test]
fn job_state_flags() {
    let mut s = JobState::new();
    assert!(!s.cancelled && !s.ended);
    s.set_ended();
    assert!(!s.cancelled && s.ended);
    s.set_cancelled();
    s.set_cancelled();
    assert!(s.cancelled && s.ended);
}

#[test]
fn stderr_reader_reports_duration_then_progress() {
    let mut r = StderrReader::new();
    let head = b"Input #0, mov,mp4, from 'a.mp4':\n  Metadata:\n  Duration: 00:00:05.06, start: 0.000000, bitrate: 1785 kb/s\n";
    assert_eq!(
        r.on_chunk(head, false),
        StderrStep::Send(vec![Message::VideoDuration(Duration::from_millis(5006))])
    );
    let frames: [&[u8]; 3] = [
        b"frame=   10 fps=0.0 q=0.0 size=0kB time=00:00:01.00 bitrate=N/A",
        b"frame=   30 fps=9.0 q=0.0 size=0kB time=00:00:02.50 bitrate=N/A",
        b"frame=   50 fps=9.0 q=0.0 Lsize=23430kB time=00:00:05.50 bitrate=N/A",
    ];
    let mut seen = Vec::new();
    for f in frames {
        match r.on_chunk(f, false) {
            StderrStep::Send(msgs) => seen.extend(msgs),
            StderrStep::Close => panic!("closed early"),
        }
    }
    assert_eq!(
        seen,
        vec![
            Message::Progress(Progress { done: 1000, total: 5006 }),
            Message::Progress(Progress { done: 2050, total: 5006 }),
            Message::Progress(Progress { done: 5006, total: 5006 }),
        ]
    );
    assert_eq!(r.on_chunk(b"", false), StderrStep::Close);
    assert_eq!(r.duration(), Some(Duration::from_millis(5006)));
}

#[test]
fn stderr_reader_finds_a_duration_split_across_reads() {
    let mut r = StderrReader::new();
    assert_eq!(r.on_chunk(b"Input #0\n  Dura", false), StderrStep::Send(vec![]));
    assert_eq!(r.on_chunk(b"tion: 00:01:00.00, sta", false), StderrStep::Send(vec![]));
    assert_eq!(
        r.on_chunk(b"rt: 0.0\n", false),
        StderrStep::Send(vec![Message::VideoDuration(Duration::from_millis(60_000))])
    );
    assert_eq!(r.on_chunk(b"  Duration: 00:00:01.00, start: 0\n", false), StderrStep::Send(vec![]));
}

#[test]
fn stderr_reader_ignores_frames_before_a_duration() {
    let mut r = StderrReader::new();
    let line = b"frame=    0 fps=0.0 q=0.0 Lsize=       0kB time=-577014:32:22.77 bitrate=  -0.0kbits/s speed=N/A";
    assert_eq!(r.on_chunk(line, false), StderrStep::Send(vec![]));
    let line = b"frame=    1 fps=0.0 q=0.0 Lsize=       0kB time=00:00:01.00 bitrate=  -0.0kbits/s speed=N/A";
    assert_eq!(r.on_chunk(line, false), StderrStep::Send(vec![]));
    assert_eq!(r.duration(), None);
}

#[test]
fn stderr_reader_sends_no_progress_for_a_zero_length_video() {
    let mut r = StderrReader::new();
    assert_eq!(
        r.on_chunk(b"\n  Duration: 00:00:00.00, start: 0.0\n", false),
        StderrStep::Send(vec![Message::VideoDuration(Duration::from_millis(0))])
    );
    assert_eq!(r.on_chunk(b"frame=  1 time=00:00:00.04 x", false), StderrStep::Send(vec![]));
}

#[test]
fn stderr_reader_stops_once_cancelled() {
    let mut r = StderrReader::new();
    assert_eq!(r.on_chunk(b"\n  Duration: 00:00:05.06, start: 0.0\n", true), StderrStep::Close);
    assert_eq!(r.duration(), None);
}

/// An empty output with no cancellation: the failure of an empty output,
/// then the end of the job.
#[test]
fn empty_output_ends_in_empty_stdout_then_done() {
    let mut state = JobState::new();
    let mut sent = Vec::new();
    sent.extend(stdout_outcome(Vec::new(), state.cancelled));
    state.set_ended();
    assert_eq!(stdin_next(Poll::Empty, state.ended), StdinAction::Close);
    sent.extend(exit_outcome(Ok(Some(0))));
    sent.push(Message::Done);
    assert_eq!(sent, vec![Message::Error(Error::EmptyStdout), Message::Done]);
}

/// The output closes before a cancellation is read: the bytes are delivered
/// and the input worker, seeing the job ended, reads no command.
#[test]
fn cancel_after_output_closed_still_delivers_success() {
    let mut state = JobState::new();
    let mut sent = Vec::new();
    assert_eq!(stdin_next(Poll::Empty, state.ended), StdinAction::Wait);
    sent.extend(stdout_outcome(vec![71, 73, 70], state.cancelled));
    state.set_ended();
    assert_eq!(stdin_next(Poll::Empty, state.ended), StdinAction::Close);
    sent.push(Message::Done);
    assert_eq!(sent, vec![Message::Success(vec![71, 73, 70]), Message::Done]);
    assert!(!state.cancelled);
}

/// A cancellation read while the transcoder still writes: the quit byte is
/// written, the cancellation confirmed, and no output sent.
#[test]
fn cancel_while_running_suppresses_output() {
    let mut state = JobState::new();
    let mut sent = Vec::new();
    let mut written = Vec::new();
    match stdin_next(Poll::Received(Command::Cancel), state.ended) {
        StdinAction::Quit { signal, confirmation } => {
            written.push(signal);
            sent.push(confirmation);
            state.set_cancelled();
        }
        other => panic!("unexpected {:?}", other),
    }
    let mut r = StderrReader::new();
    assert_eq!(r.on_chunk(b"frame= 5 time=00:00:01.00", state.cancelled), StderrStep::Close);
    sent.extend(stdout_outcome(vec![71, 73, 70], state.cancelled));
    state.set_ended();
    sent.extend(exit_outcome(Ok(Some(255))));
    sent.push(Message::Done);
    assert_eq!(written, vec![b'q']);
    assert_eq!(
        sent,
        vec![
            Message::Error(Error::Cancelled),
            Message::Error(Error::ExitCode(255)),
            Message::Done
        ]
    );
    assert_eq!(sent.iter().filter(|m| **m == Message::Done).count(), 1);
}
