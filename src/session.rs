//! The decisions of the clock's event loop: what to do after each wait on
//! the completion ring and after each completion, and the one teardown that
//! restores the terminal on every way out.
use vstd::prelude::*;

use crate::terminal::{raw_of, TermMode};

verus! {

/// The error code of a wait that a signal interrupted.
pub const EINTR: i32 = 4;

/// The quit keystroke.
pub const QUIT_KEY: u8 = 113;

/// The end-of-text control byte that an interrupt key sends in raw mode.
pub const END_OF_TEXT: u8 = 3;

/// The exit status after an internal fault.
pub const FAULT_STATUS: i32 = 1;

/// Which submitted operation a completion belongs to.
#[derive(Clone, Copy, Debug, PartialEq, Eq)]
pub enum Token {
    /// The recurring one-second timer.
    Timeout,
    /// The read of one chunk of keyboard input.
    Read,
}

/// The tag that a submission of `t` carries.
pub open spec fn tag_of(t: Token) -> u64 {
    match t {
        Token::Timeout => 1,
        Token::Read => 2,
    }
}

impl Token {
    /// The tag that a submission of this operation carries.
    pub fn tag(self) -> (r: u64)
        ensures
            r == tag_of(self),
    {
        match self {
            Token::Timeout => 1,
            Token::Read => 2,
        }
    }

    /// The operation that a completion tag names, if any.
    pub fn from_tag(tag: u64) -> (r: Option<Token>)
        ensures
            r == (if tag == 1 {
                Some(Token::Timeout)
            } else if tag == 2 {
                Some(Token::Read)
            } else {
                None
            }),
            r matches Some(t) ==> tag_of(t) == tag,
    {
        if tag == 1 {
            Some(Token::Timeout)
        } else if tag == 2 {
            Some(Token::Read)
        } else {
            None
        }
    }
}

/// What the loop observed.
#[derive(Clone, Copy, Debug, PartialEq, Eq)]
pub enum Event {
    /// A wait on the ring returned: `Ok`, or the error code.
    Waited(Result<(), i32>),
    /// A completion was dequeued: its tag, its result, and the first byte of
    /// the input buffer.
    Completed { tag: u64, res: i32, byte: u8 },
    /// Redrawing, submitting or writing failed with the error code.
    Failed(i32),
    /// An interrupt or terminate signal asked the process to end.
    Interrupted,
}

/// What the loop should do next.
#[derive(Clone, Copy, Debug, PartialEq, Eq)]
pub enum Action {
    /// Block in the ring until a completion is ready.
    Wait,
    /// Redraw once, then wait again; nothing is re-submitted (the timer
    /// recurs by itself).
    RedrawThenWait,
    /// Dequeue one completion and report it.
    Complete,
    /// Queue the read again, hand it to the kernel, and wait.
    ResubmitRead,
    /// Restore the terminal attributes in `restore` (when there are any) with
    /// the teardown sequence, and end the process with `status`.
    Exit { restore: Option<TermMode>, status: i32 },
}

/// Where the loop stands.
#[derive(Clone, Copy, Debug, PartialEq, Eq)]
pub enum Phase {
    /// The next thing to do is wait.
    Waiting,
    /// A wait returned; the next thing to do is take a completion.
    Dispatching,
    /// The loop has ended.
    Done,
}

/// The state of a session, as its contracts speak of it.
pub struct SessionModel {
    pub phase: Phase,
    pub torn_down: bool,
    pub status: i32,
    pub snapshot: TermMode,
}

/// Whether a completed read of `res` bytes starting with `byte` asks to quit:
/// the quit key or end-of-text, as the only byte read.
pub open spec fn is_quit(res: i32, byte: u8) -> bool {
    res == 1 && (byte == QUIT_KEY || byte == END_OF_TEXT)
}

/// Ends the session with `status`; the terminal is restored the first time only.
pub open spec fn finish(s: SessionModel, status: i32) -> (SessionModel, Action) {
    (
        SessionModel { phase: Phase::Done, torn_down: true, status, snapshot: s.snapshot },
        Action::Exit { restore: if s.torn_down { None } else { Some(s.snapshot) }, status },
    )
}

/// The next state and action after event `e` in state `s`.
pub open spec fn transition(s: SessionModel, e: Event) -> (SessionModel, Action) {
    let waiting = SessionModel { phase: Phase::Waiting, ..s };
    match s.phase {
        Phase::Done => finish(s, s.status),
        Phase::Waiting => match e {
            Event::Waited(Ok(())) => (SessionModel { phase: Phase::Dispatching, ..s }, Action::Complete),
            Event::Waited(Err(code)) => if code == EINTR {
                (waiting, Action::RedrawThenWait)
            } else {
                finish(s, code)
            },
            Event::Completed { .. } => finish(s, FAULT_STATUS),
            Event::Failed(code) => finish(s, code),
            Event::Interrupted => finish(s, 0),
        },
        Phase::Dispatching => match e {
            Event::Completed { tag, res, byte } => if tag == tag_of(Token::Timeout) {
                (waiting, Action::RedrawThenWait)
            } else if tag == tag_of(Token::Read) {
                if is_quit(res, byte) {
                    finish(s, 0)
                } else {
                    (waiting, Action::ResubmitRead)
                }
            } else {
                finish(s, FAULT_STATUS)
            },
            Event::Waited(_) => finish(s, FAULT_STATUS),
            Event::Failed(code) => finish(s, code),
            Event::Interrupted => finish(s, 0),
        },
    }
}

/// The running state of the clock's event loop and the terminal attributes
/// that it must put back.
pub struct Session {
    phase: Phase,
    torn_down: bool,
    status: i32,
    snapshot: TermMode,
}

impl View for Session {
    type V = SessionModel;

    closed spec fn view(&self) -> SessionModel {
        SessionModel {
            phase: self.phase,
            torn_down: self.torn_down,
            status: self.status,
            snapshot: self.snapshot,
        }
    }
}

impl Session {
    /// A session over a terminal whose attributes were `snapshot` at startup,
    /// about to wait for its first completion.
    pub fn new(snapshot: TermMode) -> (r: Session)
        ensures
            r@ == (SessionModel { phase: Phase::Waiting, torn_down: false, status: 0, snapshot }),
    {
        Session { phase: Phase::Waiting, torn_down: false, status: 0, snapshot }
    }

    /// The attributes captured at startup.
    pub fn snapshot(&self) -> (r: TermMode)
        ensures
            r == self@.snapshot,
    {
        self.snapshot
    }

    /// The attributes to install while the clock runs: the snapshot with echo
    /// and canonical input off.
    pub fn raw_mode(&self) -> (r: TermMode)
        ensures
            r == raw_of(self@.snapshot),
    {
        self.snapshot.raw()
    }

    /// Whether the loop has ended.
    pub fn is_done(&self) -> (r: bool)
        ensures
            r == (self@.phase == Phase::Done),
    {
        matches!(self.phase, Phase::Done)
    }

    fn finish(&mut self, status: i32) -> (r: Action)
        ensures
            (final(self)@, r) == finish(old(self)@, status),
    {
        let restore = if self.torn_down {
            None
        } else {
            Some(self.snapshot)
        };
        self.phase = Phase::Done;
        self.torn_down = true;
        self.status = status;
        Action::Exit { restore, status }
    }

    /// Takes in one event and says what to do next.
    pub fn step(&mut self, e: Event) -> (r: Action)
        ensures
            (final(self)@, r) == transition(old(self)@, e),
    {
        match self.phase {
            Phase::Done => {
                let status = self.status;
                self.finish(status)
            },
            Phase::Waiting => match e {
                Event::Waited(Ok(())) => {
                    self.phase = Phase::Dispatching;
                    Action::Complete
                },
                Event::Waited(Err(code)) => {
                    if code == EINTR {
                        Action::RedrawThenWait
                    } else {
                        self.finish(code)
                    }
                },
                Event::Completed { .. } => self.finish(FAULT_STATUS),
                Event::Failed(code) => self.finish(code),
                Event::Interrupted => self.finish(0),
            },
            Phase::Dispatching => match e {
                Event::Completed { tag, res, byte } => {
                    if tag == Token::Timeout.tag() {
                        self.phase = Phase::Waiting;
                        Action::RedrawThenWait
                    } else if tag == Token::Read.tag() {
                        if res == 1 && (byte == QUIT_KEY || byte == END_OF_TEXT) {
                            self.finish(0)
                        } else {
                            self.phase = Phase::Waiting;
                            Action::ResubmitRead
                        }
                    } else {
                        self.finish(FAULT_STATUS)
                    }
                },
                Event::Waited(_) => self.finish(FAULT_STATUS),
                Event::Failed(code) => self.finish(code),
                Event::Interrupted => self.finish(0),
            },
        }
    }
}

/// A state that a session can be in: the terminal has been restored exactly
/// when the loop has ended.
pub open spec fn consistent(s: SessionModel) -> bool {
    s.torn_down == (s.phase == Phase::Done)
}

/// The state after the events `es`, and the actions taken, in order.
pub open spec fn replay(s: SessionModel, es: Seq<Event>) -> (SessionModel, Seq<Action>)
    decreases es.len(),
{
    if es.len() == 0 {
        (s, Seq::empty())
    } else {
        let (mid, acts) = replay(s, es.drop_last());
        let (next, a) = transition(mid, es.last());
        (next, acts.push(a))
    }
}

/// Whether an action restores terminal attributes.
pub open spec fn restores(a: Action) -> bool {
    a matches Action::Exit { restore: Some(_), .. }
}

/// How many of `acts` restore terminal attributes.
pub open spec fn restore_count(acts: Seq<Action>) -> nat
    decreases acts.len(),
{
    if acts.len() == 0 {
        0
    } else {
        restore_count(acts.drop_last()) + if restores(acts.last()) {
            1nat
        } else {
            0
        }
    }
}

/// An interrupted wait asks for exactly one redraw and then for another
/// wait, and leaves the state as it was: the loop does not end.
pub proof fn lemma_interrupted_wait(s: SessionModel)
    requires
        s.phase == Phase::Waiting,
    ensures
        transition(s, Event::Waited(Err(EINTR))).1 == Action::RedrawThenWait,
        transition(s, Event::Waited(Err(EINTR))).0 == s,
{
}

/// A completed read whose only byte is the quit key or end-of-text ends the
/// loop with status 0 and restores the terminal; no later event restores it
/// again. Any other single byte has the read queued again, and the loop goes
/// on waiting.
pub proof fn lemma_quit_key(s: SessionModel, byte: u8, later: Event)
    requires
        s.phase == Phase::Dispatching,
        consistent(s),
    ensures
        (byte == QUIT_KEY || byte == END_OF_TEXT) ==> {
            let (next, a) = transition(s, Event::Completed { tag: tag_of(Token::Read), res: 1, byte });
            &&& a == Action::Exit { restore: Some(s.snapshot), status: 0 }
            &&& next.phase == Phase::Done
            &&& !restores(transition(next, later).1)
        },
        !(byte == QUIT_KEY || byte == END_OF_TEXT) ==> {
            let (next, a) = transition(s, Event::Completed { tag: tag_of(Token::Read), res: 1, byte });
            &&& a == Action::ResubmitRead
            &&& next.phase == Phase::Waiting
        },
{
}

/// Whatever the events, a session keeps its snapshot; every teardown restores
/// exactly the snapshot; and the terminal is restored once, on the event
/// that ends the loop, never twice.
pub proof fn lemma_teardown_restores_snapshot(s: SessionModel, es: Seq<Event>)
    requires
        consistent(s),
    ensures
        replay(s, es).0.snapshot == s.snapshot,
        consistent(replay(s, es).0),
        forall|i: int|
            0 <= i < replay(s, es).1.len() ==> (#[trigger] replay(s, es).1[i] matches Action::Exit {
                restore: Some(m),
                ..
            } ==> m == s.snapshot),
        restore_count(replay(s, es).1) == (if !s.torn_down && replay(s, es).0.torn_down {
            1nat
        } else {
            0
        }),
        replay(s, es).1.len() == es.len(),
        s.torn_down ==> replay(s, es).0.torn_down,
    decreases es.len(),
{
    if es.len() > 0 {
        lemma_teardown_restores_snapshot(s, es.drop_last());
        let (mid, acts) = replay(s, es.drop_last());
        let (next, a) = transition(mid, es.last());
        let all = acts.push(a);
        assert(all.drop_last() =~= acts);
        assert(restores(a) <==> (!mid.torn_down && next.torn_down));
        assert(mid.torn_down ==> next.torn_down);
        assert(restore_count(all) == restore_count(acts) + if restores(a) {
            1nat
        } else {
            0
        });
        assert forall|i: int|
            0 <= i < all.len() implies (#[trigger] all[i] matches Action::Exit {
                restore: Some(m),
                ..
            } ==> m == s.snapshot) by {
            if i < acts.len() {
                assert(all[i] == acts[i]);
            }
        }
    }
}

} // verus!
