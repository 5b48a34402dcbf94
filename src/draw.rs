//! The draw engine: glyph programs, the decomposition of a time value into
//! glyphs, and the rendering of glyphs as a run-length stream of styled cells.
use vstd::prelude::*;
use vstd::slice::slice_subrange;

use crate::color::{sequence, Color, Literal, Plane};
use crate::sink::{lemma_wrote_failed, lemma_wrote_nothing, lemma_wrote_then, wrote, IoError, Write};

verus! {

/// Rows of every glyph.
pub const LINE_COUNT: usize = 5;

/// Width in cells of a digit glyph.
pub const CELL_WIDTH: usize = 5;

/// Width in cells of the colon glyph.
pub const COLON_WIDTH: usize = 1;

/// Glyphs in a rendered clock: `H H : M M : S S`.
pub const GLYPH_COUNT: usize = 8;

/// Width in cells of a rendered clock: six digits and two colons, each
/// followed by a one-cell separator.
pub const GRID_WIDTH: usize = 40;

/// One run of cells: `n > 0` is `n` filled cells in the active color, `n < 0`
/// is `-n` blank cells, and zero draws nothing.
#[derive(Clone, Copy, Debug)]
pub struct Draw(i8);

impl View for Draw {
    type V = int;

    closed spec fn view(&self) -> int {
        self.0 as int
    }
}

impl Draw {
    /// A run fits in one digit cell.
    pub open spec fn wf(self) -> bool {
        -(CELL_WIDTH as int) <= self@ <= CELL_WIDTH as int
    }

    fn new(data: i8) -> (r: Self)
        requires
            -(CELL_WIDTH as int) <= data <= CELL_WIDTH as int,
        ensures
            r@ == data,
            r.wf(),
    {
        Draw(data)
    }

    /// A run of `data` filled cells.
    fn on(data: u8) -> (r: Self)
        requires
            data <= CELL_WIDTH,
        ensures
            r@ == data,
            r.wf(),
    {
        Self::new(data as i8)
    }

    /// A run of `data` blank cells.
    fn off(data: u8) -> (r: Self)
        requires
            data <= CELL_WIDTH,
        ensures
            r@ == -data,
            r.wf(),
    {
        Self::new(-(data as i8))
    }

    /// The signed length of the run.
    pub fn value(self) -> (r: i8)
        ensures
            r == self@,
    {
        self.0
    }
}

/// The row shapes that glyphs are built from.
#[derive(Clone, Copy, Debug, PartialEq, Eq)]
pub enum Shape {
    /// A full bar.
    Long,
    /// A bar on the left edge.
    Left,
    /// A bar on the right edge.
    Right,
    /// Bars on both edges.
    Both,
    /// The stem of a one.
    One,
    /// The dot of a colon.
    Dot,
    /// The gap of a colon.
    Gap,
}

/// The three runs of a row shape.
pub open spec fn shape_ops(s: Shape) -> Seq<int> {
    match s {
        Shape::Long => seq![5, 0, 0],
        Shape::Left => seq![2, -3, 0],
        Shape::Right => seq![-3, 2, 0],
        Shape::Both => seq![2, -1, 2],
        Shape::One => seq![-1, 2, -2],
        Shape::Dot => seq![1, 0, 0],
        Shape::Gap => seq![-1, 0, 0],
    }
}

impl Shape {
    /// The three runs of this row shape.
    pub fn ops(self) -> (r: [Draw; 3])
        ensures
            r@.map_values(|d: Draw| d@) == shape_ops(self),
            forall|i: int| 0 <= i < 3 ==> (#[trigger] r@[i]).wf(),
    {
        let r = match self {
            Shape::Long => [Draw::on(5), Draw::new(0), Draw::new(0)],
            Shape::Left => [Draw::on(2), Draw::off(3), Draw::new(0)],
            Shape::Right => [Draw::off(3), Draw::on(2), Draw::new(0)],
            Shape::Both => [Draw::on(2), Draw::off(1), Draw::on(2)],
            Shape::One => [Draw::off(1), Draw::on(2), Draw::off(2)],
            Shape::Dot => [Draw::on(1), Draw::new(0), Draw::new(0)],
            Shape::Gap => [Draw::off(1), Draw::new(0), Draw::new(0)],
        };
        assert(r@.map_values(|d: Draw| d@) =~= shape_ops(self));
        r
    }
}

/// One character of the clock.
#[derive(Clone, Copy, Debug, PartialEq, Eq)]
pub enum Glyph {
    Digit(u8),
    Colon,
}

/// The rows of digit `d`, top to bottom.
pub open spec fn digit_rows(d: int) -> Seq<Shape> {
    if d == 0 {
        seq![Shape::Long, Shape::Both, Shape::Both, Shape::Both, Shape::Long]
    } else if d == 1 {
        seq![Shape::One, Shape::One, Shape::One, Shape::One, Shape::One]
    } else if d == 2 {
        seq![Shape::Long, Shape::Right, Shape::Long, Shape::Left, Shape::Long]
    } else if d == 3 {
        seq![Shape::Long, Shape::Right, Shape::Long, Shape::Right, Shape::Long]
    } else if d == 4 {
        seq![Shape::Both, Shape::Both, Shape::Long, Shape::Right, Shape::Right]
    } else if d == 5 {
        seq![Shape::Long, Shape::Left, Shape::Long, Shape::Right, Shape::Long]
    } else if d == 6 {
        seq![Shape::Long, Shape::Left, Shape::Long, Shape::Both, Shape::Long]
    } else if d == 7 {
        seq![Shape::Long, Shape::Right, Shape::Right, Shape::Right, Shape::Right]
    } else if d == 8 {
        seq![Shape::Long, Shape::Both, Shape::Long, Shape::Both, Shape::Long]
    } else {
        seq![Shape::Long, Shape::Both, Shape::Long, Shape::Right, Shape::Long]
    }
}

/// The rows of a glyph, top to bottom.
pub open spec fn glyph_rows(g: Glyph) -> Seq<Shape> {
    match g {
        Glyph::Digit(d) => digit_rows(d as int),
        Glyph::Colon => seq![Shape::Gap, Shape::Dot, Shape::Gap, Shape::Dot, Shape::Gap],
    }
}

/// The runs of row `line` of a glyph.
pub open spec fn glyph_row(g: Glyph, line: int) -> Seq<int> {
    shape_ops(glyph_rows(g)[line])
}

/// The width in cells of a glyph.
pub open spec fn glyph_width(g: Glyph) -> int {
    match g {
        Glyph::Digit(_) => CELL_WIDTH as int,
        Glyph::Colon => COLON_WIDTH as int,
    }
}

impl Glyph {
    /// A digit glyph stands for one decimal digit.
    pub open spec fn wf(self) -> bool {
        match self {
            Glyph::Digit(d) => d < 10,
            Glyph::Colon => true,
        }
    }

    /// The rows of this glyph, top to bottom.
    pub fn rows(self) -> (r: [Shape; LINE_COUNT])
        ensures
            r@ == glyph_rows(self),
    {
        let r = match self {
            Glyph::Digit(0) => [Shape::Long, Shape::Both, Shape::Both, Shape::Both, Shape::Long],
            Glyph::Digit(1) => [Shape::One, Shape::One, Shape::One, Shape::One, Shape::One],
            Glyph::Digit(2) => [Shape::Long, Shape::Right, Shape::Long, Shape::Left, Shape::Long],
            Glyph::Digit(3) => [Shape::Long, Shape::Right, Shape::Long, Shape::Right, Shape::Long],
            Glyph::Digit(4) => [Shape::Both, Shape::Both, Shape::Long, Shape::Right, Shape::Right],
            Glyph::Digit(5) => [Shape::Long, Shape::Left, Shape::Long, Shape::Right, Shape::Long],
            Glyph::Digit(6) => [Shape::Long, Shape::Left, Shape::Long, Shape::Both, Shape::Long],
            Glyph::Digit(7) => [Shape::Long, Shape::Right, Shape::Right, Shape::Right, Shape::Right],
            Glyph::Digit(8) => [Shape::Long, Shape::Both, Shape::Long, Shape::Both, Shape::Long],
            Glyph::Digit(_) => [Shape::Long, Shape::Both, Shape::Long, Shape::Right, Shape::Long],
            Glyph::Colon => [Shape::Gap, Shape::Dot, Shape::Gap, Shape::Dot, Shape::Gap],
        };
        assert(r@ =~= glyph_rows(self));
        r
    }

    /// The runs of row `line` of this glyph.
    pub fn row(self, line: usize) -> (r: [Draw; 3])
        requires
            line < LINE_COUNT,
        ensures
            r@.map_values(|d: Draw| d@) == glyph_row(self, line as int),
            forall|i: int| 0 <= i < 3 ==> (#[trigger] r@[i]).wf(),
    {
        let rows = self.rows();
        rows[line].ops()
    }
}

/// Seconds, minutes and hours of the day, in that order, for a count of
/// seconds since midnight of some day (days are dropped; no calendar).
pub open spec fn time_of(seconds: int) -> Seq<int> {
    seq![seconds % 60, (seconds / 60) % 60, (seconds / 3600) % 24]
}

/// Seconds, minutes and hours of the day, in that order, of a non-negative
/// count of seconds.
pub fn time(seconds: isize) -> (r: [isize; 3])
    requires
        seconds >= 0,
    ensures
        r@.map_values(|x: isize| x as int) == time_of(seconds as int),
{
    let s = seconds % 60;
    let min = (seconds / 60) % 60;
    let h = (seconds / 3600) % 24;
    let r = [s, min, h];
    assert(r@.map_values(|x: isize| x as int) =~= time_of(seconds as int));
    r
}

/// The glyphs `H H : M M : S S` that show the time of day of `seconds`.
pub open spec fn clock_glyphs(seconds: int) -> Seq<Glyph> {
    let t = time_of(seconds);
    let (sec, min, hour) = (t[0], t[1], t[2]);
    seq![
        Glyph::Digit((hour / 10) as u8),
        Glyph::Digit((hour % 10) as u8),
        Glyph::Colon,
        Glyph::Digit((min / 10) as u8),
        Glyph::Digit((min % 10) as u8),
        Glyph::Colon,
        Glyph::Digit((sec / 10) as u8),
        Glyph::Digit((sec % 10) as u8),
    ]
}

/// The glyphs `H H : M M : S S` that show the time of day of a non-negative
/// count of seconds; every digit is below ten.
pub fn draw_time(seconds: isize) -> (r: [Glyph; GLYPH_COUNT])
    requires
        seconds >= 0,
    ensures
        r@ == clock_glyphs(seconds as int),
        forall|i: int| 0 <= i < GLYPH_COUNT ==> (#[trigger] r@[i]).wf(),
        r@[0] == Glyph::Digit((((seconds / 3600) % 24) / 10) as u8),
        r@[1] == Glyph::Digit((((seconds / 3600) % 24) % 10) as u8),
        r@[3] == Glyph::Digit((((seconds / 60) % 60) / 10) as u8),
        r@[4] == Glyph::Digit((((seconds / 60) % 60) % 10) as u8),
        r@[6] == Glyph::Digit(((seconds % 60) / 10) as u8),
        r@[7] == Glyph::Digit(((seconds % 60) % 10) as u8),
        r@[2] == Glyph::Colon && r@[5] == Glyph::Colon,
{
    let t = time(seconds);
    let s = t[0];
    let min = t[1];
    let h = t[2];
    let r = [
        Glyph::Digit((h / 10) as u8),
        Glyph::Digit((h % 10) as u8),
        Glyph::Colon,
        Glyph::Digit((min / 10) as u8),
        Glyph::Digit((min % 10) as u8),
        Glyph::Colon,
        Glyph::Digit((s / 10) as u8),
        Glyph::Digit((s % 10) as u8),
    ];
    assert(r@ =~= clock_glyphs(seconds as int));
    r
}

/// Which of the two cached colors the output stream currently has selected.
#[derive(Clone, Copy, Debug, PartialEq, Eq)]
pub enum Polarity {
    On,
    Off,
}

/// The UTF-8 bytes of a filled cell, `U+2588 FULL BLOCK`.
pub open spec fn block_byte(k: int) -> u8 {
    if k == 0 {
        0xE2u8
    } else if k == 1 {
        0x96u8
    } else {
        0x88u8
    }
}

/// The cells of one run, without any color change.
pub open spec fn cells(op: int) -> Seq<u8> {
    if op > 0 {
        Seq::new((3 * op) as nat, |i: int| block_byte(i % 3))
    } else if op < 0 {
        Seq::new((-op) as nat, |i: int| 32u8)
    } else {
        Seq::empty()
    }
}

/// The output of one run from color state `st`, and the state after it: the
/// color sequence is emitted only when the run needs the other polarity.
pub open spec fn step(st: Polarity, op: int, on: Seq<u8>, off: Seq<u8>) -> (Seq<u8>, Polarity) {
    if op > 0 {
        (if st == Polarity::On { Seq::empty() } else { on } + cells(op), Polarity::On)
    } else if op < 0 {
        (if st == Polarity::Off { Seq::empty() } else { off } + cells(op), Polarity::Off)
    } else {
        (Seq::empty(), st)
    }
}

/// The output of a sequence of runs from color state `st`, and the state after.
pub open spec fn run(st: Polarity, ops: Seq<int>, on: Seq<u8>, off: Seq<u8>) -> (
    Seq<u8>,
    Polarity,
)
    decreases ops.len(),
{
    if ops.len() == 0 {
        (Seq::empty(), st)
    } else {
        let (o, s) = run(st, ops.drop_last(), on, off);
        let (o2, s2) = step(s, ops.last(), on, off);
        (o + o2, s2)
    }
}

/// The runs of row `line` across `glyphs`, each glyph followed by one blank
/// separator cell.
pub open spec fn row_ops(glyphs: Seq<Glyph>, line: int) -> Seq<int>
    decreases glyphs.len(),
{
    if glyphs.len() == 0 {
        Seq::empty()
    } else {
        row_ops(glyphs.drop_last(), line) + glyph_row(glyphs.last(), line) + seq![-1int]
    }
}

/// The first `lines` rows of a render of `glyphs` from color state `st`: each
/// row is the margin, the runs, and a line feed.
pub open spec fn frame(
    st: Polarity,
    margin: Seq<u8>,
    glyphs: Seq<Glyph>,
    lines: nat,
    on: Seq<u8>,
    off: Seq<u8>,
) -> (Seq<u8>, Polarity)
    decreases lines,
{
    if lines == 0 {
        (Seq::empty(), st)
    } else {
        let (o, s) = frame(st, margin, glyphs, (lines - 1) as nat, on, off);
        let (o2, s2) = run(s, row_ops(glyphs, lines - 1), on, off);
        (o + margin + o2 + seq![10u8], s2)
    }
}

/// The bytes of an optional margin.
pub open spec fn margin_bytes(m: Option<&[u8]>) -> Seq<u8> {
    match m {
        Some(x) => x@,
        None => Seq::empty(),
    }
}

/// Renders glyphs into a byte sink, switching between two cached color
/// sequences only where the polarity of the runs changes.
pub struct Context<W: Write> {
    writer: W,
    on: Vec<u8>,
    off: Vec<u8>,
    state: Polarity,
}

impl<W: Write> Context<W> {
    /// The sink written to.
    pub closed spec fn sink(&self) -> W {
        self.writer
    }

    /// The sequence that selects the color of filled cells.
    pub closed spec fn on_seq(&self) -> Seq<u8> {
        self.on@
    }

    /// The sequence that selects the color of blank cells.
    pub closed spec fn off_seq(&self) -> Seq<u8> {
        self.off@
    }

    /// The color the output stream has selected.
    pub closed spec fn state_spec(&self) -> Polarity {
        self.state
    }

    /// A context that draws filled cells in bright blue on `writer`.
    pub fn new(writer: W) -> (r: Self)
        ensures
            r.sink() == writer,
            r.on_seq() == sequence(Color::Bright(Literal::Blue), Plane::Foreground),
            r.off_seq() == sequence(Color::Clear, Plane::Foreground),
            r.state_spec() == Polarity::Off,
    {
        Self::with_color(writer, Color::Bright(Literal::Blue))
    }

    /// A context that draws filled cells in `color` on `writer`.
    pub fn with_color(writer: W, color: Color) -> (r: Self)
        ensures
            r.sink() == writer,
            r.on_seq() == sequence(color, Plane::Foreground),
            r.off_seq() == sequence(Color::Clear, Plane::Foreground),
            r.state_spec() == Polarity::Off,
    {
        Context {
            writer,
            on: color.encode(Plane::Foreground),
            off: Color::Clear.encode(Plane::Foreground),
            state: Polarity::Off,
        }
    }

    /// The sink written to.
    pub fn writer(&self) -> (r: &W)
        ensures
            *r == self.sink(),
    {
        &self.writer
    }

    /// The sink written to, for the caller to drain or reset; the color state
    /// and cached sequences are kept.
    pub fn writer_mut(&mut self) -> (r: &mut W)
        ensures
            *r == old(self).sink(),
            final(self).sink() == *final(r),
            final(self).on_seq() == old(self).on_seq(),
            final(self).off_seq() == old(self).off_seq(),
            final(self).state_spec() == old(self).state_spec(),
    {
        &mut self.writer
    }

    /// Writes `bytes` to the sink as they are; the color state is kept.
    pub fn write_all(&mut self, bytes: &[u8]) -> (r: Result<(), IoError>)
        ensures
            r is Ok ==> final(self).sink().written() == old(self).sink().written() + bytes@,
            r is Err ==> final(self).sink().written() == old(self).sink().written(),
            forall|rest: Seq<u8>|
                #![trigger old(self).sink().accepts(bytes@ + rest)]
                old(self).sink().accepts(bytes@ + rest) ==> r is Ok && final(self).sink().accepts(
                    rest,
                ),
            final(self).on_seq() == old(self).on_seq(),
            final(self).off_seq() == old(self).off_seq(),
            final(self).state_spec() == old(self).state_spec(),
    {
        self.writer.write_all(bytes)
    }

    /// Flushes the sink.
    pub fn flush(&mut self) -> (r: Result<(), IoError>)
        ensures
            final(self).sink().written() == old(self).sink().written(),
            old(self).sink().accepts(Seq::empty()) ==> r is Ok && final(self).sink().accepts(
                Seq::empty(),
            ),
            final(self).on_seq() == old(self).on_seq(),
            final(self).off_seq() == old(self).off_seq(),
            final(self).state_spec() == old(self).state_spec(),
    {
        self.writer.flush()
    }

    /// Writes `n` blank cells.
    fn space(&mut self, n: usize) -> (r: Result<(), IoError>)
        requires
            1 <= n <= CELL_WIDTH,
        ensures
            wrote(old(self).writer, final(self).writer, cells(-(n as int)), r is Ok),
            final(self).on == old(self).on,
            final(self).off == old(self).off,
            final(self).state == old(self).state,
    {
        let spaces: [u8; CELL_WIDTH] = [32u8; CELL_WIDTH];
        let bytes = slice_subrange(spaces.as_slice(), 0, n);
        assert(bytes@ =~= cells(-(n as int)));
        put(&mut self.writer, bytes)
    }

    /// Writes `n` filled cells.
    fn block(&mut self, n: usize) -> (r: Result<(), IoError>)
        requires
            1 <= n <= CELL_WIDTH,
        ensures
            wrote(old(self).writer, final(self).writer, cells(n as int), r is Ok),
            final(self).on == old(self).on,
            final(self).off == old(self).off,
            final(self).state == old(self).state,
    {
        let blocks: [u8; 15] = [
            0xE2,
            0x96,
            0x88,
            0xE2,
            0x96,
            0x88,
            0xE2,
            0x96,
            0x88,
            0xE2,
            0x96,
            0x88,
            0xE2,
            0x96,
            0x88,
        ];
        let bytes = slice_subrange(blocks.as_slice(), 0, 3 * n);
        assert(bytes@ =~= cells(n as int)) by {
            assert forall|i: int| 0 <= i < 3 * n implies bytes@[i] == block_byte(i % 3) by {
                assert(bytes@[i] == blocks@[i]);
            }
        }
        put(&mut self.writer, bytes)
    }

    /// Renders the rows of `glyphs`, each after `margin_left` when there is one.
    /// On success the sink holds exactly the frame; a failed write stops the
    /// render, leaves a beginning of the frame in the sink, and is returned;
    /// the render succeeds whenever the sink accepts the frame.
    pub fn draw(&mut self, margin_left: Option<&[u8]>, glyphs: &[Glyph]) -> (r: Result<
        (),
        IoError,
    >)
        ensures
            wrote(
                old(self).sink(),
                final(self).sink(),
                frame(
                    old(self).state_spec(),
                    margin_bytes(margin_left),
                    glyphs@,
                    LINE_COUNT as nat,
                    old(self).on_seq(),
                    old(self).off_seq(),
                ).0,
                r is Ok,
            ),
            r is Ok ==> final(self).state_spec() == frame(
                old(self).state_spec(),
                margin_bytes(margin_left),
                glyphs@,
                LINE_COUNT as nat,
                old(self).on_seq(),
                old(self).off_seq(),
            ).1,
            final(self).on_seq() == old(self).on_seq(),
            final(self).off_seq() == old(self).off_seq(),
    {
        let ghost st0 = self.state;
        let ghost w0 = self.writer;
        let ghost m = margin_bytes(margin_left);
        let ghost on = self.on@;
        let ghost off = self.off@;
        let ghost total = frame(st0, m, glyphs@, LINE_COUNT as nat, on, off).0;
        proof {
            lemma_wrote_nothing(w0);
        }
        let mut line: usize = 0;
        while line < LINE_COUNT
            invariant
                line <= LINE_COUNT,
                self.on@ == on,
                self.off@ == off,
                on == old(self).on@,
                off == old(self).off@,
                w0 == old(self).writer,
                st0 == old(self).state,
                total == frame(st0, m, glyphs@, LINE_COUNT as nat, on, off).0,
                wrote(w0, self.writer, frame(st0, m, glyphs@, line as nat, on, off).0, true),
                self.state == frame(st0, m, glyphs@, line as nat, on, off).1,
                m == margin_bytes(margin_left),
            decreases LINE_COUNT - line,
        {
            let ghost prev = frame(st0, m, glyphs@, line as nat, on, off);
            let ghost wl = self.writer;
            let r = self.draw_line(margin_left, glyphs, line);
            let ghost row_out = run(prev.1, row_ops(glyphs@, line as int), on, off);
            proof {
                lemma_frame_next(st0, m, glyphs@, line as nat, on, off);
                let next = frame(st0, m, glyphs@, line as nat + 1, on, off);
                assert(prev.0 + (m + row_out.0 + seq![10u8]) =~= next.0);
                lemma_wrote_then(w0, wl, self.writer, prev.0, m + row_out.0 + seq![10u8], r is Ok);
                if r is Err {
                    lemma_frame_prefix(st0, m, glyphs@, line as nat + 1, LINE_COUNT as nat, on, off);
                    lemma_wrote_failed(w0, self.writer, next.0, total);
                }
            }
            if r.is_err() {
                return r;
            }
            line = line + 1;
        }
        Ok(())
    }

    /// Renders one line: the margin, row `line` of every glyph, a line feed.
    fn draw_line(&mut self, margin_left: Option<&[u8]>, glyphs: &[Glyph], line: usize) -> (r:
        Result<(), IoError>)
        requires
            line < LINE_COUNT,
        ensures
            wrote(
                old(self).writer,
                final(self).writer,
                margin_bytes(margin_left) + run(
                    old(self).state,
                    row_ops(glyphs@, line as int),
                    old(self).on@,
                    old(self).off@,
                ).0 + seq![10u8],
                r is Ok,
            ),
            r is Ok ==> final(self).state == run(
                old(self).state,
                row_ops(glyphs@, line as int),
                old(self).on@,
                old(self).off@,
            ).1,
            final(self).on == old(self).on,
            final(self).off == old(self).off,
    {
        let ghost w0 = self.writer;
        let ghost m = margin_bytes(margin_left);
        let ghost row_out = run(self.state, row_ops(glyphs@, line as int), self.on@, self.off@).0;
        let ghost total = m + row_out + seq![10u8];
        let newline: [u8; 1] = [10u8];
        let r = self.write_margin(margin_left);
        if r.is_err() {
            proof {
                lemma_prefix_concat(m, row_out + seq![10u8]);
                assert(m + (row_out + seq![10u8]) =~= total);
                lemma_wrote_failed(w0, self.writer, m, total);
            }
            return r;
        }
        let ghost w1 = self.writer;
        let r = self.draw_row(glyphs, line);
        proof {
            lemma_wrote_then(w0, w1, self.writer, m, row_out, r is Ok);
            if r is Err {
                lemma_prefix_concat(m + row_out, seq![10u8]);
                lemma_wrote_failed(w0, self.writer, m + row_out, total);
            }
        }
        if r.is_err() {
            return r;
        }
        let ghost w2 = self.writer;
        let r = put(&mut self.writer, newline.as_slice());
        proof {
            assert(newline@ =~= seq![10u8]);
            lemma_wrote_then(w0, w2, self.writer, m + row_out, seq![10u8], r is Ok);
        }
        r
    }

    /// Writes the margin, when there is one.
    fn write_margin(&mut self, margin_left: Option<&[u8]>) -> (r: Result<(), IoError>)
        ensures
            wrote(old(self).writer, final(self).writer, margin_bytes(margin_left), r is Ok),
            final(self).on == old(self).on,
            final(self).off == old(self).off,
            final(self).state == old(self).state,
    {
        match margin_left {
            Some(x) => put(&mut self.writer, x),
            None => {
                proof {
                    lemma_wrote_nothing(self.writer);
                }
                Ok(())
            },
        }
    }

    /// Renders row `line` of every glyph, each followed by a blank separator.
    fn draw_row(&mut self, glyphs: &[Glyph], line: usize) -> (r: Result<(), IoError>)
        requires
            line < LINE_COUNT,
        ensures
            wrote(
                old(self).writer,
                final(self).writer,
                run(old(self).state, row_ops(glyphs@, line as int), old(self).on@, old(self).off@).0,
                r is Ok,
            ),
            r is Ok ==> final(self).state == run(
                old(self).state,
                row_ops(glyphs@, line as int),
                old(self).on@,
                old(self).off@,
            ).1,
            final(self).on == old(self).on,
            final(self).off == old(self).off,
    {
        let ghost on = self.on@;
        let ghost off = self.off@;
        let ghost w0 = self.writer;
        let ghost s0 = self.state;
        let ghost total = run(s0, row_ops(glyphs@, line as int), on, off).0;
        proof {
            assert(glyphs@.take(0) =~= Seq::<Glyph>::empty());
            lemma_wrote_nothing(w0);
        }
        let mut i: usize = 0;
        while i < glyphs.len()
            invariant
                i <= glyphs@.len(),
                line < LINE_COUNT,
                self.on == old(self).on,
                self.off == old(self).off,
                on == self.on@,
                off == self.off@,
                w0 == old(self).writer,
                s0 == old(self).state,
                total == run(s0, row_ops(glyphs@, line as int), on, off).0,
                wrote(w0, self.writer, run(s0, row_ops(glyphs@.take(i as int), line as int), on, off).0, true),
                self.state == run(s0, row_ops(glyphs@.take(i as int), line as int), on, off).1,
            decreases glyphs@.len() - i,
        {
            let ghost pre = row_ops(glyphs@.take(i as int), line as int);
            let ghost wi = self.writer;
            let ghost si = self.state;
            let r = self.draw_glyph_row(glyphs[i], line);
            proof {
                let g = glyphs@.take(i + 1);
                assert(g.drop_last() =~= glyphs@.take(i as int));
                let tail = glyph_row(glyphs@[i as int], line as int) + seq![-1int];
                assert(row_ops(g, line as int) =~= pre + tail);
                lemma_run_append(s0, pre, tail, on, off);
                lemma_wrote_then(w0, wi, self.writer, run(s0, pre, on, off).0, run(si, tail, on, off).0, r is Ok);
                if r is Err {
                    lemma_row_ops_prefix(glyphs@, i + 1, line as int);
                    lemma_run_prefix(s0, row_ops(g, line as int), row_ops(glyphs@, line as int), on, off);
                    lemma_wrote_failed(w0, self.writer, run(s0, row_ops(g, line as int), on, off).0, total);
                }
            }
            if r.is_err() {
                return r;
            }
            i = i + 1;
        }
        assert(glyphs@.take(i as int) =~= glyphs@);
        Ok(())
    }

    /// Renders row `line` of one glyph and its blank separator.
    fn draw_glyph_row(&mut self, g: Glyph, line: usize) -> (r: Result<(), IoError>)
        requires
            line < LINE_COUNT,
        ensures
            wrote(
                old(self).writer,
                final(self).writer,
                run(old(self).state, glyph_row(g, line as int) + seq![-1int], old(self).on@, old(self).off@).0,
                r is Ok,
            ),
            r is Ok ==> final(self).state == run(
                old(self).state,
                glyph_row(g, line as int) + seq![-1int],
                old(self).on@,
                old(self).off@,
            ).1,
            final(self).on == old(self).on,
            final(self).off == old(self).off,
    {
        let ghost on = self.on@;
        let ghost off = self.off@;
        let ghost w0 = self.writer;
        let ghost s0 = self.state;
        let ghost all = glyph_row(g, line as int) + seq![-1int];
        let ghost total = run(s0, all, on, off).0;
        let row = g.row(line);
        let ghost ops_all = row@.map_values(|d: Draw| d@);
        proof {
            assert(all.take(0) =~= Seq::<int>::empty());
            lemma_wrote_nothing(w0);
        }
        let mut k: usize = 0;
        while k < 3
            invariant
                k <= 3,
                self.on == old(self).on,
                self.off == old(self).off,
                on == self.on@,
                off == self.off@,
                w0 == old(self).writer,
                s0 == old(self).state,
                ops_all == row@.map_values(|d: Draw| d@),
                all == ops_all + seq![-1int],
                all == glyph_row(g, line as int) + seq![-1int],
                all.len() == 4,
                total == run(s0, all, on, off).0,
                forall|j: int| 0 <= j < 3 ==> (#[trigger] row@[j]).wf(),
                wrote(w0, self.writer, run(s0, all.take(k as int), on, off).0, true),
                self.state == run(s0, all.take(k as int), on, off).1,
            decreases 3 - k,
        {
            let ghost wk = self.writer;
            let ghost sk = self.state;
            let r = self.do_draw(row[k]);
            proof {
                assert(all.take(k + 1).drop_last() =~= all.take(k as int));
                assert(all[k as int] == ops_all[k as int]);
                assert(all.take(k + 1).last() == row@[k as int]@);
                assert(run(s0, all.take(k + 1), on, off).0 == run(s0, all.take(k as int), on, off).0
                    + step(sk, row@[k as int]@, on, off).0);
                lemma_wrote_then(w0, wk, self.writer, run(s0, all.take(k as int), on, off).0, step(sk, row@[k as int]@, on, off).0, r is Ok);
                if r is Err {
                    assert(all.take(k + 1).is_prefix_of(all));
                    lemma_run_prefix(s0, all.take(k + 1), all, on, off);
                    lemma_wrote_failed(w0, self.writer, run(s0, all.take(k + 1), on, off).0, total);
                }
            }
            if r.is_err() {
                return r;
            }
            k = k + 1;
        }
        let ghost w3 = self.writer;
        let ghost s3 = self.state;
        let r = self.do_draw(Draw::off(1));
        proof {
            assert(all.drop_last() =~= all.take(3));
            assert(all.last() == -1);
            lemma_wrote_then(w0, w3, self.writer, run(s0, all.take(3), on, off).0, step(s3, -1, on, off).0, r is Ok);
        }
        r
    }

    /// Writes one run, preceded by a color sequence when its polarity differs
    /// from the stream's; an empty run writes nothing.
    fn do_draw(&mut self, d: Draw) -> (r: Result<(), IoError>)
        requires
            d.wf(),
        ensures
            wrote(
                old(self).writer,
                final(self).writer,
                step(old(self).state, d@, old(self).on@, old(self).off@).0,
                r is Ok,
            ),
            r is Ok ==> final(self).state == step(old(self).state, d@, old(self).on@, old(self).off@).1,
            d@ == 0 ==> r is Ok && final(self).writer == old(self).writer && final(self).state
                == old(self).state,
            final(self).on == old(self).on,
            final(self).off == old(self).off,
    {
        let ghost w0 = self.writer;
        let ghost total = step(self.state, d@, self.on@, self.off@).0;
        let data = d.value();
        if data > 0 {
            if !matches!(self.state, Polarity::On) {
                let r = put(&mut self.writer, self.on.as_slice());
                if r.is_err() {
                    proof {
                        lemma_prefix_concat(self.on@, cells(d@));
                        lemma_wrote_failed(w0, self.writer, self.on@, total);
                    }
                    return r;
                }
                self.state = Polarity::On;
                let ghost w1 = self.writer;
                let r = self.block(data as usize);
                proof {
                    lemma_wrote_then(w0, w1, self.writer, self.on@, cells(d@), r is Ok);
                }
                r
            } else {
                let r = self.block(data as usize);
                assert(total =~= cells(d@));
                r
            }
        } else if data < 0 {
            if !matches!(self.state, Polarity::Off) {
                let r = put(&mut self.writer, self.off.as_slice());
                if r.is_err() {
                    proof {
                        lemma_prefix_concat(self.off@, cells(d@));
                        lemma_wrote_failed(w0, self.writer, self.off@, total);
                    }
                    return r;
                }
                self.state = Polarity::Off;
                let ghost w1 = self.writer;
                let r = self.space((-data) as usize);
                proof {
                    lemma_wrote_then(w0, w1, self.writer, self.off@, cells(d@), r is Ok);
                }
                r
            } else {
                let r = self.space((-data) as usize);
                assert(total =~= cells(d@));
                r
            }
        } else {
            proof {
                lemma_wrote_nothing(self.writer);
                assert(total =~= Seq::<u8>::empty());
            }
            Ok(())
        }
    }
}

/// Running two sequences of runs one after the other is running their
/// concatenation.
pub proof fn lemma_run_append(st: Polarity, a: Seq<int>, b: Seq<int>, on: Seq<u8>, off: Seq<u8>)
    ensures
        run(st, a + b, on, off).0 == run(st, a, on, off).0 + run(run(st, a, on, off).1, b, on, off).0,
        run(st, a + b, on, off).1 == run(run(st, a, on, off).1, b, on, off).1,
    decreases b.len(),
{
    if b.len() == 0 {
        assert(a + b =~= a);
        assert(run(st, a, on, off).0 + Seq::<u8>::empty() =~= run(st, a, on, off).0);
    } else {
        lemma_run_append(st, a, b.drop_last(), on, off);
        assert((a + b).drop_last() =~= a + b.drop_last());
        let mid = run(st, a, on, off);
        let x = run(mid.1, b.drop_last(), on, off);
        let y = step(x.1, b.last(), on, off);
        assert(mid.0 + x.0 + y.0 =~= mid.0 + (x.0 + y.0));
    }
}

proof fn lemma_frame_next(
    st: Polarity,
    margin: Seq<u8>,
    glyphs: Seq<Glyph>,
    lines: nat,
    on: Seq<u8>,
    off: Seq<u8>,
)
    ensures
        frame(st, margin, glyphs, lines + 1, on, off).0 == frame(st, margin, glyphs, lines, on, off).0
            + margin + run(frame(st, margin, glyphs, lines, on, off).1, row_ops(glyphs, lines as int), on, off).0
            + seq![10u8],
        frame(st, margin, glyphs, lines + 1, on, off).1 == run(
            frame(st, margin, glyphs, lines, on, off).1,
            row_ops(glyphs, lines as int),
            on,
            off,
        ).1,
{
}

/// The absolute value of a run length.
pub open spec fn magnitude(op: int) -> int {
    if op < 0 {
        -op
    } else {
        op
    }
}

/// The sum of the magnitudes of a sequence of runs.
pub open spec fn magnitude_sum(ops: Seq<int>) -> int
    decreases ops.len(),
{
    if ops.len() == 0 {
        0
    } else {
        magnitude_sum(ops.drop_last()) + magnitude(ops.last())
    }
}

/// The cells that runs cover, `true` for filled.
pub open spec fn expand(ops: Seq<int>) -> Seq<bool>
    decreases ops.len(),
{
    if ops.len() == 0 {
        Seq::empty()
    } else {
        expand(ops.drop_last()) + Seq::new(magnitude(ops.last()) as nat, |i: int| ops.last() > 0)
    }
}

/// The shortest runs that cover `cells`: maximal stretches of equal cells.
pub open spec fn runs(cells: Seq<bool>) -> Seq<int>
    decreases cells.len(),
{
    if cells.len() == 0 {
        Seq::empty()
    } else {
        let r = runs(cells.drop_last());
        let unit: int = if cells.last() {
            1
        } else {
            -1
        };
        if r.len() > 0 && (r.last() > 0) == cells.last() {
            r.update(r.len() - 1, r.last() + unit)
        } else {
            r.push(unit)
        }
    }
}

/// `ops` filled up with empty runs to `n` entries.
pub open spec fn pad(ops: Seq<int>, n: nat) -> Seq<int> {
    ops + Seq::new((n - ops.len()) as nat, |i: int| 0int)
}

/// Non-empty runs whose polarities alternate.
pub open spec fn alternating(ops: Seq<int>) -> bool {
    &&& forall|i: int| 0 <= i < ops.len() ==> #[trigger] ops[i] != 0
    &&& forall|i: int| 0 < i < ops.len() ==> (#[trigger] ops[i] > 0) != (ops[i - 1] > 0)
}

proof fn lemma_runs_extend(cells: Seq<bool>, c: bool, n: nat)
    requires
        n >= 1,
        runs(cells).len() == 0 || (runs(cells).last() > 0) != c,
    ensures
        runs(cells + Seq::new(n, |i: int| c)) == runs(cells).push(if c {
            n as int
        } else {
            -n
        }),
    decreases n,
{
    let unit: int = if c {
        1
    } else {
        -1
    };
    if n == 1 {
        assert((cells + Seq::new(n, |i: int| c)).drop_last() =~= cells);
    } else {
        lemma_runs_extend(cells, c, (n - 1) as nat);
        let shorter = cells + Seq::new((n - 1) as nat, |i: int| c);
        assert((cells + Seq::new(n, |i: int| c)).drop_last() =~= shorter);
        let r = runs(cells);
        let m: int = if c {
            (n - 1) as int
        } else {
            -(n - 1)
        };
        assert(r.push(m).update(r.len() as int, m + unit) =~= r.push(if c {
            n as int
        } else {
            -n
        }));
    }
}

proof fn lemma_runs_expand(ops: Seq<int>)
    requires
        alternating(ops),
    ensures
        runs(expand(ops)) == ops,
    decreases ops.len(),
{
    if ops.len() > 0 {
        let init = ops.drop_last();
        assert(alternating(init)) by {
            assert forall|i: int| 0 < i < init.len() implies (#[trigger] init[i] > 0) != (init[i
                - 1] > 0) by {
                assert(init[i] == ops[i] && init[i - 1] == ops[i - 1]);
            }
        }
        lemma_runs_expand(init);
        let x = ops.last();
        assert(ops[ops.len() - 1] != 0);
        if init.len() > 0 {
            assert((ops[ops.len() - 1] > 0) != (ops[ops.len() - 2] > 0));
        }
        lemma_runs_extend(expand(init), x > 0, magnitude(x) as nat);
        assert(init.push(x) =~= ops);
    } else {
        assert(runs(expand(ops)) =~= ops);
    }
}

proof fn lemma_expand_empty_runs(ops: Seq<int>, k: nat)
    ensures
        expand(pad(ops, ops.len() + k)) == expand(ops),
        magnitude_sum(pad(ops, ops.len() + k)) == magnitude_sum(ops),
    decreases k,
{
    if k == 0 {
        assert(pad(ops, ops.len() + k) =~= ops);
    } else {
        lemma_expand_empty_runs(ops, (k - 1) as nat);
        let p = pad(ops, ops.len() + k);
        assert(p.drop_last() =~= pad(ops, ops.len() + (k - 1) as nat));
        assert(p.last() == 0);
        assert(expand(p) =~= expand(p.drop_last()));
    }
}

proof fn lemma_shape(s: Shape, core: Seq<int>, width: int)
    requires
        alternating(core),
        core.len() <= 3,
        pad(core, 3) == shape_ops(s),
        magnitude_sum(core) == width,
    ensures
        magnitude_sum(shape_ops(s)) == width,
        pad(runs(expand(shape_ops(s))), 3) == shape_ops(s),
{
    lemma_expand_empty_runs(core, (3 - core.len()) as nat);
    lemma_runs_expand(core);
}

/// Every row of every glyph covers exactly the glyph's width, and its runs
/// are the shortest encoding of the cells they cover: expanding a row into
/// cells and encoding the cells again gives back the row.
pub proof fn lemma_glyph_rows(g: Glyph, line: int)
    requires
        0 <= line < LINE_COUNT,
    ensures
        magnitude_sum(glyph_row(g, line)) == glyph_width(g),
        pad(runs(expand(glyph_row(g, line))), 3) == glyph_row(g, line),
{
    let s = glyph_rows(g)[line];
    reveal_with_fuel(magnitude_sum, 4);
    match s {
        Shape::Long => {
            assert(pad(seq![5int], 3) =~= shape_ops(s));
            lemma_shape(s, seq![5int], 5);
        },
        Shape::Left => {
            assert(pad(seq![2int, -3], 3) =~= shape_ops(s));
            assert(seq![2int, -3].drop_last() =~= seq![2int]);
            lemma_shape(s, seq![2int, -3], 5);
        },
        Shape::Right => {
            assert(pad(seq![-3int, 2], 3) =~= shape_ops(s));
            assert(seq![-3int, 2].drop_last() =~= seq![-3int]);
            lemma_shape(s, seq![-3int, 2], 5);
        },
        Shape::Both => {
            assert(pad(seq![2int, -1, 2], 3) =~= shape_ops(s));
            assert(seq![2int, -1, 2].drop_last() =~= seq![2int, -1]);
            assert(seq![2int, -1].drop_last() =~= seq![2int]);
            lemma_shape(s, seq![2int, -1, 2], 5);
        },
        Shape::One => {
            assert(pad(seq![-1int, 2, -2], 3) =~= shape_ops(s));
            assert(seq![-1int, 2, -2].drop_last() =~= seq![-1int, 2]);
            assert(seq![-1int, 2].drop_last() =~= seq![-1int]);
            lemma_shape(s, seq![-1int, 2, -2], 5);
        },
        Shape::Dot => {
            assert(pad(seq![1int], 3) =~= shape_ops(s));
            lemma_shape(s, seq![1int], 1);
        },
        Shape::Gap => {
            assert(pad(seq![-1int], 3) =~= shape_ops(s));
            lemma_shape(s, seq![-1int], 1);
        },
    }
    match g {
        Glyph::Digit(d) => {
            assert(s != Shape::Dot && s != Shape::Gap);
        },
        Glyph::Colon => {
            assert(s == Shape::Dot || s == Shape::Gap);
        },
    }
}

/// The polarity a non-empty run needs.
pub open spec fn polarity_of(op: int) -> Polarity {
    if op > 0 {
        Polarity::On
    } else {
        Polarity::Off
    }
}

/// The color sequence that selects polarity `p`.
pub open spec fn switch_to(p: Polarity, on: Seq<u8>, off: Seq<u8>) -> Seq<u8> {
    match p {
        Polarity::On => on,
        Polarity::Off => off,
    }
}

/// Two adjacent runs of the same polarity share one color sequence: it is
/// emitted once, before the first, and only when the stream has the other
/// polarity selected; the state afterwards is that polarity.
pub proof fn lemma_same_polarity_coalesced(
    st: Polarity,
    a: int,
    b: int,
    on: Seq<u8>,
    off: Seq<u8>,
)
    requires
        a != 0,
        b != 0,
        (a > 0) == (b > 0),
    ensures
        st != polarity_of(a) ==> run(st, seq![a, b], on, off).0 == switch_to(polarity_of(a), on, off)
            + cells(a) + cells(b),
        st == polarity_of(a) ==> run(st, seq![a, b], on, off).0 == cells(a) + cells(b),
        run(st, seq![a, b], on, off).1 == polarity_of(a),
{
    assert(seq![a, b].drop_last() =~= seq![a]);
    assert(seq![a].drop_last() =~= Seq::<int>::empty());
    reveal_with_fuel(run, 3);
    assert(seq![a].last() == a);
    assert(seq![a, b].last() == b);
    let first = step(st, a, on, off);
    assert(run(st, seq![a], on, off).0 =~= Seq::<u8>::empty() + first.0);
    if st != polarity_of(a) {
        assert(Seq::<u8>::empty() + (switch_to(polarity_of(a), on, off) + cells(a)) + (
        Seq::<u8>::empty() + cells(b)) =~= switch_to(polarity_of(a), on, off) + cells(a) + cells(
            b,
        ));
    } else {
        assert(Seq::<u8>::empty() + (Seq::<u8>::empty() + cells(a)) + (Seq::<u8>::empty() + cells(
            b,
        )) =~= cells(a) + cells(b));
    }
}

/// Every row ends with a blank separator, so a render of at least one glyph
/// leaves the stream with the blank color selected, whatever it started with.
pub proof fn lemma_frame_ends_off(
    st: Polarity,
    margin: Seq<u8>,
    glyphs: Seq<Glyph>,
    lines: nat,
    on: Seq<u8>,
    off: Seq<u8>,
)
    requires
        glyphs.len() > 0,
        lines > 0,
    ensures
        frame(st, margin, glyphs, lines, on, off).1 == Polarity::Off,
{
    let prev = frame(st, margin, glyphs, (lines - 1) as nat, on, off);
    let ops = row_ops(glyphs, lines - 1);
    assert(ops.last() == -1);
    assert(run(prev.1, ops, on, off).1 == Polarity::Off);
}

/// Writes `bytes` to `writer` as they are.
fn put<W: Write>(writer: &mut W, bytes: &[u8]) -> (r: Result<(), IoError>)
    ensures
        wrote(*old(writer), *final(writer), bytes@, r is Ok),
{
    let r = writer.write_all(bytes);
    proof {
        let w = old(writer).written();
        if r is Err {
            assert(w =~= w.subrange(0, w.len() as int));
            assert(w =~= (w + bytes@).subrange(0, w.len() as int));
        }
    }
    r
}

/// A sequence begins any sequence it is extended to.
pub proof fn lemma_prefix_concat<T>(a: Seq<T>, b: Seq<T>)
    ensures
        a.is_prefix_of(a + b),
{
    assert(a =~= (a + b).subrange(0, a.len() as int));
}

proof fn lemma_prefix_trans<T>(a: Seq<T>, b: Seq<T>, c: Seq<T>)
    requires
        a.is_prefix_of(b),
        b.is_prefix_of(c),
    ensures
        a.is_prefix_of(c),
{
    assert(a =~= c.subrange(0, a.len() as int));
}

/// The output of runs that begin a sequence of runs begins its output.
pub proof fn lemma_run_prefix(st: Polarity, a: Seq<int>, b: Seq<int>, on: Seq<u8>, off: Seq<u8>)
    requires
        a.is_prefix_of(b),
    ensures
        run(st, a, on, off).0.is_prefix_of(run(st, b, on, off).0),
{
    let x = b.subrange(a.len() as int, b.len() as int);
    assert(b =~= a + x);
    lemma_run_append(st, a, x, on, off);
    lemma_prefix_concat(run(st, a, on, off).0, run(run(st, a, on, off).1, x, on, off).0);
}

/// The runs of a row across the first `j` glyphs begin the runs across all.
pub proof fn lemma_row_ops_prefix(glyphs: Seq<Glyph>, j: int, line: int)
    requires
        0 <= j <= glyphs.len(),
    ensures
        row_ops(glyphs.take(j), line).is_prefix_of(row_ops(glyphs, line)),
    decreases glyphs.len(),
{
    if j == glyphs.len() {
        assert(glyphs.take(j) =~= glyphs);
        lemma_prefix_concat(row_ops(glyphs, line), Seq::<int>::empty());
        assert(row_ops(glyphs, line) + Seq::<int>::empty() =~= row_ops(glyphs, line));
    } else {
        let init = glyphs.drop_last();
        lemma_row_ops_prefix(init, j, line);
        assert(init.take(j) =~= glyphs.take(j));
        lemma_prefix_concat(
            row_ops(init, line),
            glyph_row(glyphs.last(), line) + seq![-1int],
        );
        assert(row_ops(init, line) + (glyph_row(glyphs.last(), line) + seq![-1int]) =~= row_ops(
            glyphs,
            line,
        ));
        lemma_prefix_trans(row_ops(glyphs.take(j), line), row_ops(init, line), row_ops(glyphs, line));
    }
}

/// The first `k` rows of a render begin its first `n` rows.
pub proof fn lemma_frame_prefix(
    st: Polarity,
    margin: Seq<u8>,
    glyphs: Seq<Glyph>,
    k: nat,
    n: nat,
    on: Seq<u8>,
    off: Seq<u8>,
)
    requires
        k <= n,
    ensures
        frame(st, margin, glyphs, k, on, off).0.is_prefix_of(frame(st, margin, glyphs, n, on, off).0),
    decreases n,
{
    if k == n {
        let f = frame(st, margin, glyphs, n, on, off).0;
        assert(f =~= f.subrange(0, f.len() as int));
    } else {
        lemma_frame_prefix(st, margin, glyphs, k, (n - 1) as nat, on, off);
        lemma_frame_next(st, margin, glyphs, (n - 1) as nat, on, off);
        let prev = frame(st, margin, glyphs, (n - 1) as nat, on, off);
        let row_out = run(prev.1, row_ops(glyphs, n - 1), on, off).0;
        assert(prev.0 + margin + row_out + seq![10u8] =~= prev.0 + (margin + row_out + seq![10u8]));
        lemma_prefix_concat(prev.0, margin + row_out + seq![10u8]);
        lemma_prefix_trans(frame(st, margin, glyphs, k, on, off).0, prev.0, frame(st, margin, glyphs, n, on, off).0);
    }
}

/// How many ESC bytes (the first byte of every escape sequence) `s` holds.
pub open spec fn escape_count(s: Seq<u8>) -> nat
    decreases s.len(),
{
    if s.len() == 0 {
        0
    } else {
        escape_count(s.drop_last()) + if s.last() == 27 {
            1nat
        } else {
            0
        }
    }
}

/// The polarity of the last non-empty run of `ops`, or `st` when there is none.
pub open spec fn last_polarity(st: Polarity, ops: Seq<int>) -> Polarity
    decreases ops.len(),
{
    if ops.len() == 0 {
        st
    } else if ops.last() != 0 {
        polarity_of(ops.last())
    } else {
        last_polarity(st, ops.drop_last())
    }
}

/// How many non-empty runs of `ops` need another polarity than the run
/// before them (the first one: than `st`).
pub open spec fn polarity_changes(st: Polarity, ops: Seq<int>) -> nat
    decreases ops.len(),
{
    if ops.len() == 0 {
        0
    } else {
        polarity_changes(st, ops.drop_last()) + if ops.last() != 0 && polarity_of(ops.last())
            != last_polarity(st, ops.drop_last()) {
            1nat
        } else {
            0
        }
    }
}

proof fn lemma_escape_count_append(a: Seq<u8>, b: Seq<u8>)
    ensures
        escape_count(a + b) == escape_count(a) + escape_count(b),
    decreases b.len(),
{
    if b.len() == 0 {
        assert(a + b =~= a);
    } else {
        lemma_escape_count_append(a, b.drop_last());
        assert((a + b).drop_last() =~= a + b.drop_last());
    }
}

proof fn lemma_escape_count_none(s: Seq<u8>)
    requires
        forall|i: int| 0 <= i < s.len() ==> s[i] != 27,
    ensures
        escape_count(s) == 0,
    decreases s.len(),
{
    if s.len() > 0 {
        lemma_escape_count_none(s.drop_last());
    }
}

/// Color-state coalescing in general: when each cached color sequence holds
/// one escape sequence, the output of any runs holds exactly one escape
/// sequence per change of polarity, and the stream ends in the polarity of
/// the last non-empty run.
pub proof fn lemma_escapes_count_changes(st: Polarity, ops: Seq<int>, on: Seq<u8>, off: Seq<u8>)
    requires
        escape_count(on) == 1,
        escape_count(off) == 1,
    ensures
        escape_count(run(st, ops, on, off).0) == polarity_changes(st, ops),
        run(st, ops, on, off).1 == last_polarity(st, ops),
    decreases ops.len(),
{
    if ops.len() > 0 {
        let init = ops.drop_last();
        lemma_escapes_count_changes(st, init, on, off);
        let prev = run(st, init, on, off);
        let op = ops.last();
        let here = step(prev.1, op, on, off);
        lemma_escape_count_append(prev.0, here.0);
        assert forall|i: int| 0 <= i < cells(op).len() implies cells(op)[i] != 27 by {
            if op > 0 {
                assert(cells(op)[i] == block_byte(i % 3));
            }
        }
        lemma_escape_count_none(cells(op));
        lemma_escape_count_append(on, cells(op));
        lemma_escape_count_append(off, cells(op));
        lemma_escape_count_append(Seq::<u8>::empty(), cells(op));
        assert(escape_count(Seq::<u8>::empty()) == 0);
    }
}

} // verus!
