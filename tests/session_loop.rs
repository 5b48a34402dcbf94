use clock::session::{Action, Event, Session, Token, EINTR};
use clock::terminal::{TermMode, ECHO, ICANON};

fn snapshot() -> TermMode {
    let mut cc = [0u8; 19];
    cc[0] = 3;
    cc[6] = 1;
    TermMode { iflag: 0x500, oflag: 0x5, cflag: 0xbf, lflag: 0x8a3b, line: 0, cc }
}

fn dispatching() -> Session {
    let mut s = Session::new(snapshot());
    assert_eq!(s.step(Event::Waited(Ok(()))), Action::Complete);
    s
}

fn read(byte: u8) -> Event {
    Event::Completed { tag: Token::Read.tag(), res: 1, byte }
}

#[test]
fn tokens_round_trip_through_tags() {
    assert_eq!(Token::from_tag(Token::Timeout.tag()), Some(Token::Timeout));
    assert_eq!(Token::from_tag(Token::Read.tag()), Some(Token::Read));
    assert_eq!(Token::from_tag(0), None);
    assert_eq!(Token::from_tag(7), None);
    assert_ne!(Token::Timeout.tag(), Token::Read.tag());
}

#[test]
fn interrupted_wait_redraws_once_and_waits_again() {
    let mut s = Session::new(snapshot());
    assert_eq!(s.step(Event::Waited(Err(EINTR))), Action::RedrawThenWait);
    assert!(!s.is_done());
    assert_eq!(s.step(Event::Waited(Err(EINTR))), Action::RedrawThenWait);
    assert_eq!(s.step(Event::Waited(Ok(()))), Action::Complete);
}

#[test]
fn timer_tick_redraws() {
    let mut s = dispatching();
    let tick = Event::Completed { tag: Token::Timeout.tag(), res: 0, byte: 0 };
    assert_eq!(s.step(tick), Action::RedrawThenWait);
    assert!(!s.is_done());
    assert_eq!(s.step(Event::Waited(Ok(()))), Action::Complete);
}

#[test]
fn quit_key_ends_loop_and_restores_once() {
    for key in [b'q', 0x03] {
        let mut s = dispatching();
        assert_eq!(s.step(read(key)), Action::Exit { restore: Some(snapshot()), status: 0 });
        assert!(s.is_done());
        assert_eq!(s.step(Event::Interrupted), Action::Exit { restore: None, status: 0 });
        assert_eq!(s.step(Event::Failed(5)), Action::Exit { restore: None, status: 0 });
    }
}

#[test]
fn other_keys_resubmit_the_read() {
    for key in [b'x', b'Q', b' ', 0x1b, 0x04] {
        let mut s = dispatching();
        assert_eq!(s.step(read(key)), Action::ResubmitRead);
        assert!(!s.is_done());
    }
}

#[test]
fn quit_key_among_other_bytes_does_not_quit() {
    let mut s = dispatching();
    let ev = Event::Completed { tag: Token::Read.tag(), res: 3, byte: b'q' };
    assert_eq!(s.step(ev), Action::ResubmitRead);
}

#[test]
fn unknown_token_is_a_fault() {
    let mut s = dispatching();
    let ev = Event::Completed { tag: 99, res: 1, byte: b'q' };
    assert_eq!(s.step(ev), Action::Exit { restore: Some(snapshot()), status: 1 });
}

#[test]
fn wait_error_ends_with_its_code() {
    let mut s = Session::new(snapshot());
    assert_eq!(s.step(Event::Waited(Err(9))), Action::Exit { restore: Some(snapshot()), status: 9 });
}

#[test]
fn failed_redraw_ends_with_its_code() {
    let mut s = dispatching();
    let tick = Event::Completed { tag: Token::Timeout.tag(), res: 0, byte: 0 };
    assert_eq!(s.step(tick), Action::RedrawThenWait);
    assert_eq!(s.step(Event::Failed(5)), Action::Exit { restore: Some(snapshot()), status: 5 });
}

#[test]
fn interrupt_signal_restores_snapshot() {
    let mut s = Session::new(snapshot());
    assert_eq!(s.step(Event::Interrupted), Action::Exit { restore: Some(snapshot()), status: 0 });
}

#[test]
fn raw_mode_clears_only_echo_and_canonical() {
    let s = Session::new(snapshot());
    let raw = s.raw_mode();
    assert_eq!(raw.lflag, snapshot().lflag & !(ECHO | ICANON));
    assert_eq!(raw.lflag & (ECHO | ICANON), 0);
    assert_eq!(TermMode { lflag: snapshot().lflag, ..raw }, snapshot());
    assert_eq!(s.snapshot(), snapshot());
}
