//! Terminal state that a session owns: attribute snapshots and raw mode, the
//! control sequences of the alternate screen and cursor, and the margins that
//! center the clock.
use vstd::prelude::*;

use crate::decimal::{decimal, push_decimal};
use crate::draw::{
    clock_glyphs, draw_time, frame, lemma_prefix_concat, Context, Polarity, GRID_WIDTH, LINE_COUNT,
};
use crate::sink::{lemma_wrote_failed, lemma_wrote_then, wrote, IoError, Write};

verus! {

/// Local-mode flag: echo input characters.
pub const ECHO: u32 = 0x8;

/// Local-mode flag: canonical (line-buffered) input.
pub const ICANON: u32 = 0x2;

/// Number of control characters in a terminal attribute record.
pub const CONTROL_CHARS: usize = 19;

/// Offset of the displayed time zone from UTC, in seconds.
pub const UTC_OFFSET: isize = 8 * 3600;

/// A terminal attribute record, as the get/set attribute requests carry it.
#[derive(Clone, Copy, Debug, PartialEq, Eq)]
pub struct TermMode {
    pub iflag: u32,
    pub oflag: u32,
    pub cflag: u32,
    pub lflag: u32,
    pub line: u8,
    pub cc: [u8; CONTROL_CHARS],
}

/// `m` with echo and canonical input switched off, all else kept.
pub open spec fn raw_of(m: TermMode) -> TermMode {
    TermMode { lflag: m.lflag & !(ECHO | ICANON), ..m }
}

impl TermMode {
    /// This record with echo and canonical input switched off, all else kept.
    pub fn raw(&self) -> (r: TermMode)
        ensures
            r == raw_of(*self),
    {
        TermMode { lflag: self.lflag & !(ECHO | ICANON), ..*self }
    }
}

/// `ESC [?1049h`: enter the alternate screen.
pub open spec fn enter_alternate() -> Seq<u8> {
    seq![27u8, 91, 63, 49, 48, 52, 57, 104]
}

/// `ESC [?1049l`: leave the alternate screen.
pub open spec fn leave_alternate() -> Seq<u8> {
    seq![27u8, 91, 63, 49, 48, 52, 57, 108]
}

/// `ESC [?25l`: hide the cursor.
pub open spec fn hide_cursor() -> Seq<u8> {
    seq![27u8, 91, 63, 50, 53, 108]
}

/// `ESC [?25h`: show the cursor.
pub open spec fn show_cursor() -> Seq<u8> {
    seq![27u8, 91, 63, 50, 53, 104]
}

/// `ESC [H`: move the cursor home.
pub open spec fn cursor_home() -> Seq<u8> {
    seq![27u8, 91, 72]
}

/// What starts a session: hide the cursor, enter the alternate screen.
pub open spec fn startup_bytes() -> Seq<u8> {
    hide_cursor() + enter_alternate()
}

/// What ends a session: leave the alternate screen, show the cursor.
pub open spec fn teardown_bytes() -> Seq<u8> {
    leave_alternate() + show_cursor()
}

/// What starts every frame: a blank alternate screen, cursor home.
pub open spec fn frame_start_bytes() -> Seq<u8> {
    leave_alternate() + enter_alternate() + cursor_home()
}

fn push_all(out: &mut Vec<u8>, bytes: &[u8])
    ensures
        final(out)@ == old(out)@ + bytes@,
{
    let mut i: usize = 0;
    while i < bytes.len()
        invariant
            i <= bytes@.len(),
            out@ == old(out)@ + bytes@.subrange(0, i as int),
        decreases bytes@.len() - i,
    {
        out.push(bytes[i]);
        assert(bytes@.subrange(0, i as int + 1) =~= bytes@.subrange(0, i as int).push(bytes@[i as int]));
        i = i + 1;
    }
    assert(bytes@.subrange(0, i as int) =~= bytes@);
}

/// The bytes that start a session: hide the cursor, enter the alternate screen.
pub fn startup_sequence() -> (r: Vec<u8>)
    ensures
        r@ == startup_bytes(),
{
    let bytes: [u8; 14] = [27, 91, 63, 50, 53, 108, 27, 91, 63, 49, 48, 52, 57, 104];
    let mut out = Vec::new();
    push_all(&mut out, bytes.as_slice());
    assert(out@ =~= startup_bytes());
    out
}

/// The bytes that end a session: leave the alternate screen, show the cursor.
pub fn teardown_sequence() -> (r: Vec<u8>)
    ensures
        r@ == teardown_bytes(),
{
    let bytes: [u8; 14] = [27, 91, 63, 49, 48, 52, 57, 108, 27, 91, 63, 50, 53, 104];
    let mut out = Vec::new();
    push_all(&mut out, bytes.as_slice());
    assert(out@ =~= teardown_bytes());
    out
}

/// The bytes that start every frame: a blank alternate screen, cursor home.
pub fn frame_start_sequence() -> (r: Vec<u8>)
    ensures
        r@ == frame_start_bytes(),
{
    let bytes: [u8; 19] = [
        27,
        91,
        63,
        49,
        48,
        52,
        57,
        108,
        27,
        91,
        63,
        49,
        48,
        52,
        57,
        104,
        27,
        91,
        72,
    ];
    let mut out = Vec::new();
    push_all(&mut out, bytes.as_slice());
    assert(out@ =~= frame_start_bytes());
    out
}

/// A direction of relative cursor movement.
#[derive(Clone, Copy, Debug, PartialEq, Eq)]
pub enum Direction {
    Up,
    Down,
    Right,
    Left,
}

/// The final byte of a movement sequence: `A`, `B`, `C` or `D`.
pub open spec fn direction_byte(d: Direction) -> u8 {
    match d {
        Direction::Up => 65,
        Direction::Down => 66,
        Direction::Right => 67,
        Direction::Left => 68,
    }
}

/// `ESC [ n X`: move the cursor `n` cells in direction `X`.
pub open spec fn cursor_move_bytes(n: nat, d: Direction) -> Seq<u8> {
    seq![27u8, 91u8] + decimal(n) + seq![direction_byte(d)]
}

impl Direction {
    /// The final byte of a movement sequence.
    pub fn byte(self) -> (r: u8)
        ensures
            r == direction_byte(self),
    {
        match self {
            Direction::Up => 65,
            Direction::Down => 66,
            Direction::Right => 67,
            Direction::Left => 68,
        }
    }
}

/// The sequence that moves the cursor `n` cells in `direction`.
pub fn cursor_move_sequence(n: u64, direction: Direction) -> (r: Vec<u8>)
    ensures
        r@ == cursor_move_bytes(n as nat, direction),
{
    let mut out: Vec<u8> = Vec::new();
    out.push(27u8);
    out.push(91u8);
    push_decimal(&mut out, n);
    out.push(direction.byte());
    assert(out@ =~= cursor_move_bytes(n as nat, direction));
    out
}

/// Writes the sequence that moves the cursor `n` cells in `direction`.
pub fn cursor_move<W: Write>(writer: &mut W, n: u64, direction: Direction) -> (r: Result<
    (),
    IoError,
>)
    ensures
        r is Ok ==> final(writer).written() == old(writer).written() + cursor_move_bytes(
            n as nat,
            direction,
        ),
        r is Err ==> final(writer).written() == old(writer).written(),
        forall|rest: Seq<u8>|
            #![trigger old(writer).accepts(cursor_move_bytes(n as nat, direction) + rest)]
            old(writer).accepts(cursor_move_bytes(n as nat, direction) + rest) ==> r is Ok
                && final(writer).accepts(rest),
{
    let bytes = cursor_move_sequence(n, direction);
    writer.write_all(bytes.as_slice())
}

/// Columns to the left of a centered clock in a window `cols` wide.
pub open spec fn left_margin(cols: int) -> int {
    if cols >= GRID_WIDTH {
        (cols - GRID_WIDTH) / 2
    } else {
        0
    }
}

/// Rows above a centered clock in a window `rows` high.
pub open spec fn top_margin(rows: int) -> int {
    if rows >= LINE_COUNT {
        (rows - LINE_COUNT) / 2
    } else {
        0
    }
}

/// The movement that skips a margin of `n` cells; none for an empty margin.
pub open spec fn margin_bytes_of(n: int, d: Direction) -> Seq<u8> {
    if n > 0 {
        cursor_move_bytes(n as nat, d)
    } else {
        Seq::empty()
    }
}

/// The cursor movements that center the clock in the window.
#[derive(Debug)]
pub struct Margins {
    /// Written at the start of every row.
    pub left: Vec<u8>,
    /// Written once, above the first row.
    pub top: Vec<u8>,
}

impl Margins {
    /// The margins for a window of `rows` by `cols` cells: the clock, 5 rows
    /// high and as wide as its grid, is centered, or put in the top left
    /// corner of a window too small for it.
    pub fn new(rows: u16, cols: u16) -> (r: Margins)
        ensures
            r.left@ == margin_bytes_of(left_margin(cols as int), Direction::Right),
            r.top@ == margin_bytes_of(top_margin(rows as int), Direction::Down),
    {
        let left: u64 = if cols as usize >= GRID_WIDTH {
            ((cols as usize - GRID_WIDTH) / 2) as u64
        } else {
            0
        };
        let top: u64 = if rows as usize >= LINE_COUNT {
            ((rows as usize - LINE_COUNT) / 2) as u64
        } else {
            0
        };
        let left_bytes = if left > 0 {
            cursor_move_sequence(left, Direction::Right)
        } else {
            Vec::new()
        };
        let top_bytes = if top > 0 {
            cursor_move_sequence(top, Direction::Down)
        } else {
            Vec::new()
        };
        Margins { left: left_bytes, top: top_bytes }
    }
}

/// The bytes of one redraw of the clock at `seconds` past midnight.
pub open spec fn redraw_bytes(
    st: Polarity,
    margins: Margins,
    seconds: int,
    on: Seq<u8>,
    off: Seq<u8>,
) -> Seq<u8> {
    frame_start_bytes() + margins.top@ + frame(
        st,
        margins.left@,
        clock_glyphs(seconds),
        LINE_COUNT as nat,
        on,
        off,
    ).0
}

/// Redraws the clock for `epoch_seconds` (seconds since the Unix epoch) in
/// the fixed time zone: a blank screen, the top margin, the glyph rows each
/// after the left margin; then flushes the sink so the frame leaves at once.
/// A failed write stops the redraw with a beginning of those bytes written;
/// a sink that accepts the bytes makes it succeed.
pub fn redraw<W: Write>(ctx: &mut Context<W>, margins: &Margins, epoch_seconds: isize) -> (r:
    Result<(), IoError>)
    requires
        0 <= epoch_seconds <= isize::MAX - UTC_OFFSET,
    ensures
        r is Ok ==> final(ctx).sink().written() == old(ctx).sink().written() + redraw_bytes(
            old(ctx).state_spec(),
            *margins,
            epoch_seconds + UTC_OFFSET,
            old(ctx).on_seq(),
            old(ctx).off_seq(),
        ),
        r is Err ==> old(ctx).sink().written().is_prefix_of(final(ctx).sink().written()),
        r is Err ==> final(ctx).sink().written().is_prefix_of(
            old(ctx).sink().written() + redraw_bytes(
                old(ctx).state_spec(),
                *margins,
                epoch_seconds + UTC_OFFSET,
                old(ctx).on_seq(),
                old(ctx).off_seq(),
            ),
        ),
        old(ctx).sink().accepts(
            redraw_bytes(
                old(ctx).state_spec(),
                *margins,
                epoch_seconds + UTC_OFFSET,
                old(ctx).on_seq(),
                old(ctx).off_seq(),
            ),
        ) ==> r is Ok,
        final(ctx).on_seq() == old(ctx).on_seq(),
        final(ctx).off_seq() == old(ctx).off_seq(),
{
    let ghost w0 = ctx.sink();
    let ghost start_b = frame_start_bytes();
    let ghost top_b = margins.top@;
    let ghost total = redraw_bytes(
        ctx.state_spec(),
        *margins,
        epoch_seconds + UTC_OFFSET,
        ctx.on_seq(),
        ctx.off_seq(),
    );
    let ghost body = frame(
        ctx.state_spec(),
        margins.left@,
        clock_glyphs(epoch_seconds + UTC_OFFSET),
        LINE_COUNT as nat,
        ctx.on_seq(),
        ctx.off_seq(),
    ).0;
    assert(total == start_b + top_b + body);
    proof {
        assert(total + Seq::<u8>::empty() =~= total);
        if w0.accepts(total) {
            assert(w0.accepts(total + Seq::<u8>::empty()));
        }
    }
    let start = frame_start_sequence();
    let r = ctx.write_all(start.as_slice());
    proof {
        lemma_put(w0, ctx.sink(), start_b, r is Ok);
        if r is Err {
            lemma_prefix_concat(start_b, top_b + body);
            assert(start_b + (top_b + body) =~= total);
            lemma_wrote_failed(w0, ctx.sink(), start_b, total);
        }
    }
    if r.is_err() {
        return r;
    }
    let ghost w1 = ctx.sink();
    let r = ctx.write_all(margins.top.as_slice());
    proof {
        lemma_put(w1, ctx.sink(), top_b, r is Ok);
        lemma_wrote_then(w0, w1, ctx.sink(), start_b, top_b, r is Ok);
        if r is Err {
            lemma_prefix_concat(start_b + top_b, body);
            lemma_wrote_failed(w0, ctx.sink(), start_b + top_b, total);
        }
    }
    if r.is_err() {
        return r;
    }
    let ghost w2 = ctx.sink();
    let glyphs = draw_time(epoch_seconds + UTC_OFFSET);
    let r = ctx.draw(Some(margins.left.as_slice()), glyphs.as_slice());
    proof {
        lemma_wrote_then(w0, w2, ctx.sink(), start_b + top_b, body, r is Ok);
        assert(start_b + top_b + body == total);
    }
    if r.is_err() {
        return r;
    }
    let ghost w3 = ctx.sink();
    let r = ctx.flush();
    proof {
        let w = w3.written();
        assert(w =~= w.subrange(0, w.len() as int));
        if w0.accepts(total) {
            assert(total + Seq::<u8>::empty() =~= total);
            assert(w0.accepts(total + Seq::<u8>::empty()));
        }
    }
    r
}

/// What a single write of `out` did to a sink, in the terms of `wrote`.
proof fn lemma_put<W: Write>(before: W, after: W, out: Seq<u8>, ok: bool)
    requires
        ok ==> after.written() == before.written() + out,
        !ok ==> after.written() == before.written(),
        forall|rest: Seq<u8>|
            #![trigger before.accepts(out + rest)]
            before.accepts(out + rest) ==> ok && after.accepts(rest),
    ensures
        wrote(before, after, out, ok),
{
    let w = before.written();
    assert(w =~= w.subrange(0, w.len() as int));
    assert(w =~= (w + out).subrange(0, w.len() as int));
}

} // verus!
