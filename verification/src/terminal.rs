//! Terminal sessions: which shell to start, what the reader of a terminal
//! emits, and the registry of the running sessions.
//!
//! Opening the pseudo-terminal, reading from it and ending the shell are the
//! caller's part. What is decided here is handed over as plain values, and
//! the caller hands back what happened.

use crate::command::CommandLine;
use crate::error::{BridgeError, ErrorKind};
use crate::registry::Registry;
use vstd::prelude::*;
use vstd::string::StringExecFns;

verus! {

/// The size of a terminal, in cells and in pixels.
#[derive(Debug, Clone, Copy, PartialEq, Eq, Structural)]
pub struct TerminalSize {
    pub rows: u16,
    pub cols: u16,
    pub pixel_width: u16,
    pub pixel_height: u16,
}

/// What is to be started for a terminal.
#[derive(Debug)]
pub struct TerminalLaunch {
    pub terminal_id: String,
    pub shell: CommandLine,
    pub working_dir: Option<String>,
    pub size: TerminalSize,
}

/// The size that every terminal starts with: 24 rows of 80 cells.
pub open spec fn initial_size() -> TerminalSize {
    TerminalSize { rows: 24, cols: 80, pixel_width: 0, pixel_height: 0 }
}

/// The shell of the platform. On Windows it is PowerShell. Elsewhere it is
/// the shell that the user has set, `/bin/sh` where none is set, started as a
/// login shell.
pub open spec fn shell_for(windows: bool, user_shell: Option<Seq<char>>) -> (
    Seq<char>,
    Seq<Seq<char>>,
) {
    if windows {
        ("powershell.exe"@, Seq::empty())
    } else {
        (
            match user_shell {
                Some(shell) => shell,
                None => "/bin/sh"@,
            },
            seq!["-l"@],
        )
    }
}

/// The text of an optional string.
pub open spec fn text_of(value: Option<&str>) -> Option<Seq<char>> {
    match value {
        Some(v) => Some(v@),
        None => None,
    }
}

/// The size that every terminal starts with.
pub fn default_size() -> (size: TerminalSize)
    ensures
        size == initial_size(),
{
    TerminalSize { rows: 24, cols: 80, pixel_width: 0, pixel_height: 0 }
}

/// The shell to start, from the platform and the shell that the user has
/// set.
pub fn resolve_shell(windows: bool, user_shell: Option<&str>) -> (shell: CommandLine)
    ensures
        shell@ == shell_for(windows, text_of(user_shell)),
{
    if windows {
        CommandLine::new("powershell.exe", None)
    } else {
        match user_shell {
            Some(shell) => CommandLine::new(shell, Some("-l")),
            None => CommandLine::new("/bin/sh", Some("-l")),
        }
    }
}

/// Plans a terminal: the shell of the platform, in `working_dir` where one
/// is given, at the initial size.
pub fn plan_terminal(
    terminal_id: &str,
    working_dir: Option<&str>,
    windows: bool,
    user_shell: Option<&str>,
) -> (launch: TerminalLaunch)
    ensures
        launch.terminal_id@ == terminal_id@,
        launch.shell@ == shell_for(windows, text_of(user_shell)),
        match launch.working_dir {
            Some(dir) => text_of(working_dir) == Some(dir@),
            None => working_dir is None,
        },
        launch.size == initial_size(),
{
    TerminalLaunch {
        terminal_id: terminal_id.to_owned(),
        shell: resolve_shell(windows, user_shell),
        working_dir: match working_dir {
            Some(dir) => Some(dir.to_owned()),
            None => None,
        },
        size: default_size(),
    }
}

/// What a terminal tells the front end.
#[derive(Debug)]
pub enum TerminalEvent {
    /// The shell wrote `data`: the bytes as they were read.
    Output { terminal_id: String, data: Vec<u8> },
    /// The shell is gone.
    Exit { terminal_id: String },
}

/// An event without the terminal's id.
pub enum Emitted {
    /// Output, with the bytes that it carries.
    Output(Seq<u8>),
    /// The exit.
    Exit,
}

impl TerminalEvent {
    /// What the event says.
    pub open spec fn emitted(self) -> Emitted {
        match self {
            TerminalEvent::Output { terminal_id, data } => Emitted::Output(data@),
            TerminalEvent::Exit { terminal_id } => Emitted::Exit,
        }
    }

    /// The terminal that the event is about.
    pub open spec fn terminal(self) -> Seq<char> {
        match self {
            TerminalEvent::Output { terminal_id, data } => terminal_id@,
            TerminalEvent::Exit { terminal_id } => terminal_id@,
        }
    }

    /// The name of the channel on which the event goes out.
    pub open spec fn channel(self) -> Seq<char> {
        match self {
            TerminalEvent::Output { terminal_id, data } => "terminal-output-"@ + terminal_id@,
            TerminalEvent::Exit { terminal_id } => "terminal-exit-"@ + terminal_id@,
        }
    }

    /// The name of the channel on which the event goes out.
    pub fn event_name(&self) -> (name: String)
        ensures
            name@ == self.channel(),
    {
        match self {
            TerminalEvent::Output { terminal_id, data } => "terminal-output-".to_owned().concat(
                terminal_id.as_str(),
            ),
            TerminalEvent::Exit { terminal_id } => "terminal-exit-".to_owned().concat(
                terminal_id.as_str(),
            ),
        }
    }
}

/// How one read from the terminal went.
#[derive(Debug)]
pub enum ReadOutcome {
    /// These bytes were read; none means that the stream has ended.
    Data(Vec<u8>),
    /// The read failed.
    Failed,
}

/// True when the read shows that the shell is gone: the stream has ended, or
/// the read failed.
pub open spec fn read_ends(outcome: ReadOutcome) -> bool {
    match outcome {
        ReadOutcome::Data(bytes) => bytes@.len() == 0,
        ReadOutcome::Failed => true,
    }
}

/// What a reader does with one read: whether it is finished afterwards, and
/// what it emits. Bytes that were read go out as they are. A reader that is
/// finished emits nothing more.
pub open spec fn react(finished: bool, outcome: ReadOutcome) -> (bool, Option<Emitted>) {
    if finished {
        (true, None)
    } else {
        match outcome {
            ReadOutcome::Data(bytes) => if bytes@.len() == 0 {
                (true, Some(Emitted::Exit))
            } else {
                (false, Some(Emitted::Output(bytes@)))
            },
            ReadOutcome::Failed => (true, Some(Emitted::Exit)),
        }
    }
}

/// What a reader emits over a run of reads.
pub open spec fn trace(finished: bool, outcomes: Seq<ReadOutcome>) -> Seq<Emitted>
    decreases outcomes.len(),
{
    if outcomes.len() == 0 {
        Seq::empty()
    } else {
        let (then, emitted) = react(finished, outcomes[0]);
        match emitted {
            Some(e) => seq![e] + trace(then, outcomes.drop_first()),
            None => trace(then, outcomes.drop_first()),
        }
    }
}

/// The number of exits among `events`.
pub open spec fn exits(events: Seq<Emitted>) -> nat
    decreases events.len(),
{
    if events.len() == 0 {
        0
    } else if events.last() is Exit {
        exits(events.drop_last()) + 1
    } else {
        exits(events.drop_last())
    }
}

/// What the reader loop of a terminal is to do next.
#[derive(Debug)]
pub struct ReaderStep {
    /// The event to emit, if any.
    pub event: Option<TerminalEvent>,
    /// Whether to read again.
    pub proceed: bool,
}

/// The reader of one terminal: it turns reads into events, and remembers
/// that it has emitted the exit.
#[derive(Debug)]
pub struct TerminalReader {
    terminal_id: String,
    exit_sent: bool,
}

impl TerminalReader {
    /// The terminal that is read.
    pub closed spec fn terminal(&self) -> Seq<char> {
        self.terminal_id@
    }

    /// Whether the exit has been emitted.
    pub closed spec fn finished(&self) -> bool {
        self.exit_sent
    }

    /// A reader at the start of the terminal's output.
    pub fn new(terminal_id: &str) -> (reader: TerminalReader)
        ensures
            reader.terminal() == terminal_id@,
            !reader.finished(),
    {
        TerminalReader { terminal_id: terminal_id.to_owned(), exit_sent: false }
    }

    /// The step for the bytes `data` that were read: they go out as they
    /// are under the terminal's id, and the reader reads again.
    pub fn output(&self, data: Vec<u8>) -> (step: ReaderStep)
        ensures
            step.proceed,
            step.event matches Some(event) && event.emitted() == Emitted::Output(data@)
                && event.terminal() == self.terminal(),
    {
        ReaderStep {
            event: Some(TerminalEvent::Output { terminal_id: self.terminal_id.clone(), data }),
            proceed: true,
        }
    }

    /// The step for the end of the shell: the exit goes out under the
    /// terminal's id, and the reader stops.
    pub fn exit(&self) -> (step: ReaderStep)
        ensures
            !step.proceed,
            step.event matches Some(event) && event.emitted() == Emitted::Exit && event.terminal()
                == self.terminal(),
    {
        ReaderStep {
            event: Some(TerminalEvent::Exit { terminal_id: self.terminal_id.clone() }),
            proceed: false,
        }
    }

    /// Takes the outcome of one read.
    pub fn on_read(&mut self, outcome: ReadOutcome) -> (step: ReaderStep)
        ensures
            final(self).terminal() == old(self).terminal(),
            final(self).finished() == react(old(self).finished(), outcome).0,
            step.proceed == !final(self).finished(),
            match step.event {
                Some(event) => react(old(self).finished(), outcome).1 == Some(event.emitted())
                    && event.terminal() == old(self).terminal(),
                None => react(old(self).finished(), outcome).1 is None,
            },
    {
        if self.exit_sent {
            return ReaderStep { event: None, proceed: false };
        }
        match outcome {
            ReadOutcome::Data(bytes) => {
                if bytes.len() == 0 {
                    self.exit_sent = true;
                    self.exit()
                } else {
                    self.output(bytes)
                }
            },
            ReadOutcome::Failed => {
                self.exit_sent = true;
                self.exit()
            },
        }
    }
}

/// A finished reader emits nothing.
pub proof fn lemma_finished_is_silent(outcomes: Seq<ReadOutcome>)
    ensures
        trace(true, outcomes) == Seq::<Emitted>::empty(),
    decreases outcomes.len(),
{
    if outcomes.len() > 0 {
        lemma_finished_is_silent(outcomes.drop_first());
    }
}

/// The exit is emitted once and is the last event: over any run of reads a
/// fresh reader emits one exit if some read shows that the shell is gone,
/// and none otherwise, and nothing after the exit.
pub proof fn lemma_exit_once(outcomes: Seq<ReadOutcome>)
    ensures
        exits(trace(false, outcomes)) == if exists|i: int|
            0 <= i < outcomes.len() && read_ends(#[trigger] outcomes[i]) {
            1nat
        } else {
            0nat
        },
        exits(trace(false, outcomes)) == 1 ==> trace(false, outcomes).last() is Exit,
    decreases outcomes.len(),
{
    let all = trace(false, outcomes);
    assert(exits(Seq::<Emitted>::empty()) == 0);
    if outcomes.len() == 0 {
        assert(all =~= Seq::<Emitted>::empty());
    } else {
        let rest = outcomes.drop_first();
        if read_ends(outcomes[0]) {
            lemma_finished_is_silent(rest);
            assert(all =~= seq![Emitted::Exit]);
            assert(all.drop_last() =~= Seq::<Emitted>::empty());
            assert(all.last() is Exit);
            assert(exits(all) == 1);
        } else {
            lemma_exit_once(rest);
            let head = react(false, outcomes[0]).1->0;
            let tail = trace(false, rest);
            assert(all =~= seq![head] + tail);
            lemma_exits_after(head, tail);
            if exists|i: int| 0 <= i < rest.len() && read_ends(#[trigger] rest[i]) {
                let i = choose|i: int| 0 <= i < rest.len() && read_ends(#[trigger] rest[i]);
                assert(read_ends(outcomes[i + 1]));
                assert(tail.len() > 0);
                assert(all.last() == tail.last());
            } else {
                assert forall|i: int| 0 <= i < outcomes.len() implies !read_ends(
                    #[trigger] outcomes[i],
                ) by {
                    if i > 0 {
                        assert(!read_ends(rest[i - 1]));
                    }
                }
            }
        }
    }
}

/// The bytes that `events` carry, one output after the other.
pub open spec fn joined(events: Seq<Emitted>) -> Seq<u8>
    decreases events.len(),
{
    if events.len() == 0 {
        Seq::empty()
    } else {
        match events[0] {
            Emitted::Output(bytes) => bytes + joined(events.drop_first()),
            Emitted::Exit => joined(events.drop_first()),
        }
    }
}

/// The bytes that were read before the first read that shows the shell
/// gone, one piece after the other.
pub open spec fn read_before_end(outcomes: Seq<ReadOutcome>) -> Seq<u8>
    decreases outcomes.len(),
{
    if outcomes.len() == 0 {
        Seq::empty()
    } else {
        match outcomes[0] {
            ReadOutcome::Data(bytes) => if bytes@.len() == 0 {
                Seq::empty()
            } else {
                bytes@ + read_before_end(outcomes.drop_first())
            },
            ReadOutcome::Failed => Seq::empty(),
        }
    }
}

/// What goes out is what was read: the outputs of a fresh reader carry,
/// piece by piece and in order, the bytes that were read up to the end of
/// the shell, and no others.
pub proof fn lemma_output_is_what_was_read(outcomes: Seq<ReadOutcome>)
    ensures
        joined(trace(false, outcomes)) == read_before_end(outcomes),
    decreases outcomes.len(),
{
    let all = trace(false, outcomes);
    let none = Seq::<Emitted>::empty();
    assert(joined(none) == Seq::<u8>::empty());
    if outcomes.len() == 0 {
        assert(all =~= none);
    } else {
        let rest = outcomes.drop_first();
        if read_ends(outcomes[0]) {
            lemma_finished_is_silent(rest);
            assert(all =~= seq![Emitted::Exit]);
            assert(all.drop_first() =~= none);
            assert(joined(all) =~= Seq::<u8>::empty());
        } else {
            lemma_output_is_what_was_read(rest);
            let head = react(false, outcomes[0]).1->0;
            let tail = trace(false, rest);
            assert(all =~= seq![head] + tail);
            assert(all.drop_first() =~= tail);
            assert(all[0] == head);
        }
    }
}

/// An output in front does not change the number of exits.
proof fn lemma_exits_after(head: Emitted, tail: Seq<Emitted>)
    requires
        head is Output,
    ensures
        exits(seq![head] + tail) == exits(tail),
    decreases tail.len(),
{
    let all = seq![head] + tail;
    if tail.len() == 0 {
        assert(all.drop_last() =~= Seq::<Emitted>::empty());
        assert(all.last() == head);
        assert(exits(Seq::<Emitted>::empty()) == 0);
        assert(tail =~= Seq::<Emitted>::empty());
    } else {
        assert(all.drop_last() =~= seq![head] + tail.drop_last());
        assert(all.last() == tail.last());
        lemma_exits_after(head, tail.drop_last());
    }
}

/// The steps at which starting or using a terminal can fail.
#[derive(Debug, Clone, Copy, PartialEq, Eq, Structural)]
pub enum PtyStage {
    OpenPty,
    SpawnShell,
    CloneReader,
    TakeWriter,
    LockState,
    LockWriter,
    LockChild,
    Write,
    Flush,
    Kill,
}

impl PtyStage {
    /// The kind of a failure at this step: starting fails as a spawn, using
    /// as input or output.
    pub open spec fn kind(self) -> ErrorKind {
        match self {
            PtyStage::OpenPty | PtyStage::SpawnShell | PtyStage::CloneReader | PtyStage::TakeWriter => {
                ErrorKind::Spawn
            },
            _ => ErrorKind::Io,
        }
    }

    /// How the text of a failure at this step begins.
    pub open spec fn prefix(self) -> Seq<char> {
        match self {
            PtyStage::OpenPty => "Failed to create PTY: "@,
            PtyStage::SpawnShell => "Failed to spawn shell: "@,
            PtyStage::CloneReader => "Failed to clone reader: "@,
            PtyStage::TakeWriter => "Failed to get writer: "@,
            PtyStage::LockState => "Failed to lock state: "@,
            PtyStage::LockWriter => "Failed to lock writer: "@,
            PtyStage::LockChild => "Failed to lock child: "@,
            PtyStage::Write => "Failed to write to PTY: "@,
            PtyStage::Flush => "Failed to flush PTY: "@,
            PtyStage::Kill => "Failed to kill child process: "@,
        }
    }

    /// The failure at this step with the given cause.
    pub fn failure(self, cause: &str) -> (error: BridgeError)
        ensures
            error@ == (self.kind(), self.prefix() + cause@),
    {
        match self {
            PtyStage::OpenPty => BridgeError::new(ErrorKind::Spawn, "Failed to create PTY: ", cause),
            PtyStage::SpawnShell => BridgeError::new(
                ErrorKind::Spawn,
                "Failed to spawn shell: ",
                cause,
            ),
            PtyStage::CloneReader => BridgeError::new(
                ErrorKind::Spawn,
                "Failed to clone reader: ",
                cause,
            ),
            PtyStage::TakeWriter => BridgeError::new(
                ErrorKind::Spawn,
                "Failed to get writer: ",
                cause,
            ),
            PtyStage::LockState => BridgeError::new(ErrorKind::Io, "Failed to lock state: ", cause),
            PtyStage::LockWriter => BridgeError::new(ErrorKind::Io, "Failed to lock writer: ", cause),
            PtyStage::LockChild => BridgeError::new(ErrorKind::Io, "Failed to lock child: ", cause),
            PtyStage::Write => BridgeError::new(ErrorKind::Io, "Failed to write to PTY: ", cause),
            PtyStage::Flush => BridgeError::new(ErrorKind::Io, "Failed to flush PTY: ", cause),
            PtyStage::Kill => BridgeError::new(
                ErrorKind::Io,
                "Failed to kill child process: ",
                cause,
            ),
        }
    }
}

/// How ending a shell went. Ending a shell that has exited already is a
/// success, whatever the kill answered; a kill that failed on a shell that
/// still runs is a failure.
pub open spec fn kill_settled(killed: Result<(), String>, exited: bool) -> Result<
    (),
    (ErrorKind, Seq<char>),
> {
    match killed {
        Ok(_) => Ok(()),
        Err(cause) => if exited {
            Ok(())
        } else {
            Err((PtyStage::Kill.kind(), PtyStage::Kill.prefix() + cause@))
        },
    }
}

/// Settles how ending a shell went, from what the kill answered and whether
/// the shell had exited already.
pub fn settle_kill(killed: Result<(), String>, exited: bool) -> (settled: Result<(), BridgeError>)
    ensures
        match settled {
            Ok(_) => kill_settled(killed, exited) is Ok,
            Err(e) => kill_settled(killed, exited) == Err::<(), (ErrorKind, Seq<char>)>(e@),
        },
{
    match killed {
        Ok(_) => Ok(()),
        Err(cause) => if exited {
            Ok(())
        } else {
            Err(PtyStage::Kill.failure(cause.as_str()))
        },
    }
}

/// The running terminal sessions by terminal id.
pub struct PtyState<S> {
    sessions: Registry<S>,
}

impl<S> View for PtyState<S> {
    type V = Map<Seq<char>, S>;

    closed spec fn view(&self) -> Map<Seq<char>, S> {
        self.sessions@
    }
}

impl<S> PtyState<S> {
    /// No terminal runs.
    pub fn new() -> (state: PtyState<S>)
        ensures
            state@ == Map::<Seq<char>, S>::empty(),
    {
        PtyState { sessions: Registry::new() }
    }

    /// The number of sessions.
    pub fn len(&self) -> (count: usize)
        ensures
            self@.dom().finite(),
            count == self@.dom().len(),
    {
        self.sessions.len()
    }
}

/// The sessions after the one under `terminal_id`, if any, was taken out.
pub open spec fn without<S>(sessions: Map<Seq<char>, S>, terminal_id: Seq<char>) -> Map<
    Seq<char>,
    S,
> {
    sessions.remove(terminal_id)
}

/// The text of the failure for a terminal without a session.
pub open spec fn no_session(terminal_id: Seq<char>) -> (ErrorKind, Seq<char>) {
    (ErrorKind::Lookup, "No active PTY session for terminal "@ + terminal_id)
}

/// Makes room for a new session of `terminal_id`: a session that runs under
/// this id leaves the registry and is handed to the caller, who ends it
/// before starting the new one.
pub fn retire_pty_session<S>(state: &mut PtyState<S>, terminal_id: &str) -> (displaced: Option<S>)
    ensures
        final(state)@ == without(old(state)@, terminal_id@),
        displaced == session_of(old(state)@, terminal_id@),
{
    state.sessions.remove(terminal_id)
}

/// The session under `terminal_id`, if there is one.
pub open spec fn session_of<S>(sessions: Map<Seq<char>, S>, terminal_id: Seq<char>) -> Option<S> {
    if sessions.contains_key(terminal_id) {
        Some(sessions[terminal_id])
    } else {
        None
    }
}

/// Ends a start. Where the session came up, it is registered under
/// `terminal_id`; a session that still stood there leaves the registry and
/// is handed to the caller. Where the session did not come up, nothing
/// changes and the cause is reported as it came.
pub fn start_pty_session<S>(
    state: &mut PtyState<S>,
    terminal_id: String,
    spawned: Result<S, BridgeError>,
) -> (result: Result<Option<S>, BridgeError>)
    ensures
        match spawned {
            Ok(session) => {
                &&& final(state)@ == old(state)@.insert(terminal_id@, session)
                &&& result == Ok::<Option<S>, BridgeError>(session_of(old(state)@, terminal_id@))
            },
            Err(cause) => {
                &&& final(state)@ == old(state)@
                &&& result == Err::<Option<S>, BridgeError>(cause)
            },
        },
{
    match spawned {
        Ok(session) => Ok(state.sessions.insert(terminal_id, session)),
        Err(cause) => Err(cause),
    }
}

/// The session to write to. A terminal without a session is a failure.
pub fn write_to_pty<'a, S>(state: &'a PtyState<S>, terminal_id: &str) -> (session: Result<
    &'a S,
    BridgeError,
>)
    ensures
        match session {
            Ok(s) => state@.contains_key(terminal_id@) && *s == state@[terminal_id@],
            Err(e) => !state@.contains_key(terminal_id@) && e@ == no_session(terminal_id@),
        },
{
    match state.sessions.get(terminal_id) {
        Some(s) => Ok(s),
        None => Err(
            BridgeError::new(ErrorKind::Lookup, "No active PTY session for terminal ", terminal_id),
        ),
    }
}

/// Stops the session of `terminal_id`: it leaves the registry and is handed
/// to the caller, who ends it. Where no session runs under the id, this
/// fails and changes nothing.
pub fn stop_pty_session<S>(state: &mut PtyState<S>, terminal_id: &str) -> (stopped: Result<
    S,
    BridgeError,
>)
    ensures
        final(state)@ == without(old(state)@, terminal_id@),
        match stopped {
            Ok(session) => session_of(old(state)@, terminal_id@) == Some(session),
            Err(e) => {
                &&& session_of(old(state)@, terminal_id@) is None
                &&& e@ == no_session(terminal_id@)
                &&& final(state)@ == old(state)@
            },
        },
{
    match state.sessions.remove(terminal_id) {
        Some(session) => Ok(session),
        None => {
            proof {
                assert(old(state)@.remove(terminal_id@) =~= old(state)@);
            }
            Err(
                BridgeError::new(
                    ErrorKind::Lookup,
                    "No active PTY session for terminal ",
                    terminal_id,
                ),
            )
        },
    }
}

/// Starting a terminal again leaves one session under its id, the new one.
/// The session that ran there has left the registry before the new one was
/// started; the sessions of other terminals are as they were, and where a
/// session ran under the id the number of sessions is as it was.
pub proof fn lemma_restart_leaves_one<S>(sessions: Map<Seq<char>, S>, terminal_id: Seq<char>, session: S)
    requires
        sessions.dom().finite(),
    ensures
        !without(sessions, terminal_id).contains_key(terminal_id),
        without(sessions, terminal_id).insert(terminal_id, session) == sessions.insert(
            terminal_id,
            session,
        ),
        sessions.insert(terminal_id, session)[terminal_id] == session,
        forall|other: Seq<char>|
            other != terminal_id ==> (#[trigger] sessions.insert(terminal_id, session).contains_key(
                other,
            ) == sessions.contains_key(other)),
        forall|other: Seq<char>|
            other != terminal_id && sessions.contains_key(other) ==> #[trigger] sessions.insert(
                terminal_id,
                session,
            )[other] == sessions[other],
        sessions.contains_key(terminal_id) ==> sessions.insert(terminal_id, session).dom().len()
            == sessions.dom().len(),
        !sessions.contains_key(terminal_id) ==> sessions.insert(terminal_id, session).dom().len()
            == sessions.dom().len() + 1,
{
    assert(sessions.remove(terminal_id).insert(terminal_id, session) =~= sessions.insert(
        terminal_id,
        session,
    ));
    assert(sessions.insert(terminal_id, session).dom() =~= sessions.dom().insert(terminal_id));
}

/// Stopping is idempotent. After a stop, whether it succeeded or not,
/// no session runs under the id, so that a second stop fails and changes
/// nothing; and a stop that fails changes nothing.
pub proof fn lemma_stop_twice<S>(sessions: Map<Seq<char>, S>, terminal_id: Seq<char>)
    ensures
        session_of(without(sessions, terminal_id), terminal_id) is None,
        without(without(sessions, terminal_id), terminal_id) == without(sessions, terminal_id),
        session_of(sessions, terminal_id) is None ==> without(sessions, terminal_id) == sessions,
{
    assert(sessions.remove(terminal_id).remove(terminal_id) =~= sessions.remove(terminal_id));
    assert(!sessions.contains_key(terminal_id) ==> sessions.remove(terminal_id) =~= sessions);
}

} // verus!
