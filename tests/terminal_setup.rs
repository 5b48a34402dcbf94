use clock::draw::{draw_time, Context};
use clock::sink::ArrayWriter;
use clock::terminal::{
    cursor_move, frame_start_sequence, redraw, startup_sequence, teardown_sequence, Direction,
    Margins, UTC_OFFSET,
};

#[test]
fn margins_center_clock_in_standard_window() {
    let m = Margins::new(24, 80);
    assert_eq!(m.left, b"\x1b[20C");
    assert_eq!(m.top, b"\x1b[9B");
}

#[test]
fn margins_in_odd_window_round_down() {
    let m = Margins::new(50, 201);
    assert_eq!(m.left, b"\x1b[80C");
    assert_eq!(m.top, b"\x1b[22B");
}

#[test]
fn margins_vanish_in_small_window() {
    let m = Margins::new(4, 39);
    assert_eq!(m.left, b"");
    assert_eq!(m.top, b"");
    let m = Margins::new(5, 40);
    assert_eq!(m.left, b"");
    assert_eq!(m.top, b"");
}

#[test]
fn cursor_moves_in_each_direction() {
    let mut w = ArrayWriter::new(64);
    assert_eq!(cursor_move(&mut w, 12, Direction::Up), Ok(()));
    assert_eq!(cursor_move(&mut w, 3, Direction::Down), Ok(()));
    assert_eq!(cursor_move(&mut w, 0, Direction::Right), Ok(()));
    assert_eq!(cursor_move(&mut w, 1000, Direction::Left), Ok(()));
    assert_eq!(w.as_slice(), b"\x1b[12A\x1b[3B\x1b[0C\x1b[1000D");
}

#[test]
fn session_sequences() {
    assert_eq!(startup_sequence(), b"\x1b[?25l\x1b[?1049h");
    assert_eq!(teardown_sequence(), b"\x1b[?1049l\x1b[?25h");
    assert_eq!(frame_start_sequence(), b"\x1b[?1049l\x1b[?1049h\x1b[H");
}

#[test]
fn redraw_writes_one_whole_frame() {
    let margins = Margins::new(24, 80);
    let mut ctx = Context::new(ArrayWriter::new(2048));
    assert_eq!(redraw(&mut ctx, &margins, 0), Ok(()));
    let out = ctx.writer().as_slice().to_vec();

    let mut expected = Context::new(ArrayWriter::new(2048));
    assert_eq!(expected.write_all(&frame_start_sequence()), Ok(()));
    assert_eq!(expected.write_all(b"\x1b[9B"), Ok(()));
    assert_eq!(expected.draw(Some(b"\x1b[20C"), &draw_time(UTC_OFFSET)), Ok(()));
    assert_eq!(out, expected.writer().as_slice());
    assert_eq!(UTC_OFFSET, 8 * 3600);
}
