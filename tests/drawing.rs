use clock::color::{Color, Literal};
use clock::draw::{draw_time, time, Context, Glyph, Shape, LINE_COUNT};
use clock::sink::{ArrayWriter, IoError};

const ON: &[u8] = b"\x1b[94m";
const OFF: &[u8] = b"\x1b[39m";
const BLOCK: &str = "\u{2588}";

fn render(glyphs: &[Glyph], margin: Option<&[u8]>) -> Vec<u8> {
    let mut ctx = Context::new(ArrayWriter::new(4096));
    assert_eq!(ctx.draw(margin, glyphs), Ok(()));
    ctx.writer().as_slice().to_vec()
}

fn count_escapes(bytes: &[u8]) -> usize {
    bytes.iter().filter(|&&b| b == 0x1b).count()
}

#[test]
fn time_decomposes_seconds() {
    assert_eq!(time(0), [0, 0, 0]);
    assert_eq!(time(3661), [1, 1, 1]);
    assert_eq!(time(45296), [56, 34, 12]);
    assert_eq!(time(86399), [59, 59, 23]);
    assert_eq!(time(86400 + 61), [1, 1, 0]);
}

#[test]
fn draw_time_orders_hours_minutes_seconds() {
    let g = draw_time(45296);
    assert_eq!(
        g,
        [
            Glyph::Digit(1),
            Glyph::Digit(2),
            Glyph::Colon,
            Glyph::Digit(3),
            Glyph::Digit(4),
            Glyph::Colon,
            Glyph::Digit(5),
            Glyph::Digit(6),
        ]
    );
    let g = draw_time(23 * 3600 + 9 * 60 + 7);
    assert_eq!(g[0], Glyph::Digit(2));
    assert_eq!(g[1], Glyph::Digit(3));
    assert_eq!(g[3], Glyph::Digit(0));
    assert_eq!(g[4], Glyph::Digit(9));
    assert_eq!(g[6], Glyph::Digit(0));
    assert_eq!(g[7], Glyph::Digit(7));
}

#[test]
fn draw_time_digits_match_decomposition_over_a_day() {
    let mut s: isize = 0;
    while s < 86400 {
        let g = draw_time(s);
        let [sec, min, hour] = time(s);
        let digit = |x: isize| Glyph::Digit(x as u8);
        assert_eq!(g[0], digit(hour / 10));
        assert_eq!(g[1], digit(hour % 10));
        assert_eq!(g[3], digit(min / 10));
        assert_eq!(g[4], digit(min % 10));
        assert_eq!(g[6], digit(sec / 10));
        assert_eq!(g[7], digit(sec % 10));
        assert_eq!(sec, s % 60);
        assert_eq!(min, (s / 60) % 60);
        assert_eq!(hour, (s / 3600) % 24);
        s += 7;
    }
}

#[test]
fn glyph_rows_cover_their_width() {
    let mut glyphs: Vec<Glyph> = (0..10).map(Glyph::Digit).collect();
    glyphs.push(Glyph::Colon);
    for g in glyphs {
        let width = if g == Glyph::Colon { 1 } else { 5 };
        for line in 0..LINE_COUNT {
            let row = g.row(line);
            let sum: i32 = row.iter().map(|d| (d.value() as i32).abs()).sum();
            assert_eq!(sum, width);
        }
    }
}

#[test]
fn shapes_have_their_runs() {
    let values = |s: Shape| s.ops().map(|d| d.value());
    assert_eq!(values(Shape::Long), [5, 0, 0]);
    assert_eq!(values(Shape::Left), [2, -3, 0]);
    assert_eq!(values(Shape::Right), [-3, 2, 0]);
    assert_eq!(values(Shape::Both), [2, -1, 2]);
    assert_eq!(values(Shape::One), [-1, 2, -2]);
    assert_eq!(values(Shape::Dot), [1, 0, 0]);
    assert_eq!(values(Shape::Gap), [-1, 0, 0]);
}

#[test]
fn colon_renders_exactly() {
    let out = render(&[Glyph::Colon], None);
    let dot = [ON, BLOCK.as_bytes(), OFF, b" \n"].concat();
    let expected = [&b"  \n"[..], &dot, b"  \n", &dot, b"  \n"].concat();
    assert_eq!(out, expected);
}

#[test]
fn margin_precedes_every_row() {
    let out = render(&[Glyph::Colon], Some(b"\x1b[3C"));
    let text = String::from_utf8(out).unwrap();
    let lines: Vec<&str> = text.split_terminator('\n').collect();
    assert_eq!(lines.len(), 5);
    assert!(lines.iter().all(|l| l.starts_with("\x1b[3C")));
}

#[test]
fn adjacent_runs_of_one_polarity_share_one_sequence() {
    // The stem of a one ends with two blank cells, and the separator adds a
    // third: one color change covers all three.
    let out = render(&[Glyph::Digit(1)], None);
    let text = String::from_utf8(out).unwrap();
    let first = text.split('\n').next().unwrap();
    let expected = format!(" \x1b[94m{b}{b}\x1b[39m   ", b = BLOCK);
    assert_eq!(first, expected);
    assert_eq!(count_escapes(first.as_bytes()), 2);
}

#[test]
fn separators_switch_between_full_bars() {
    // The top row of an eight is a full bar; the bars of two eights are
    // parted by a blank separator, so the color switches around it.
    let out = render(&[Glyph::Digit(8), Glyph::Digit(8)], None);
    let text = String::from_utf8(out).unwrap();
    let first = text.split('\n').next().unwrap();
    let bar = BLOCK.repeat(5);
    let expected = format!("\x1b[94m{bar}\x1b[39m \x1b[94m{bar}\x1b[39m ");
    assert_eq!(first, expected);
}

#[test]
fn render_state_carries_over_between_frames() {
    let mut ctx = Context::new(ArrayWriter::new(4096));
    assert_eq!(ctx.draw(None, &[Glyph::Digit(8)]), Ok(()));
    let first = ctx.writer().len();
    assert_eq!(ctx.draw(None, &[Glyph::Digit(8)]), Ok(()));
    let all = ctx.writer().as_slice().to_vec();
    // The first frame ends with a blank separator, so the second starts with
    // a switch to the filled color, exactly as the first did.
    assert_eq!(&all[..first], &all[first..]);
}

#[test]
fn custom_color_is_used_for_filled_cells() {
    let mut ctx = Context::with_color(ArrayWriter::new(4096), Color::Normal(Literal::Red));
    assert_eq!(ctx.draw(None, &[Glyph::Digit(0)]), Ok(()));
    assert!(ctx.writer().as_slice().starts_with(b"\x1b[31m"));
}

#[test]
fn whole_clock_fits_in_a_frame_buffer() {
    let mut ctx = Context::new(ArrayWriter::new(2048));
    assert_eq!(ctx.draw(Some(b"\x1b[32767C"), &draw_time(0)), Ok(()));
    assert!(ctx.writer().len() <= 1300);
}

#[test]
fn failed_write_aborts_render() {
    let mut ctx = Context::new(ArrayWriter::new(10));
    assert_eq!(ctx.draw(None, &draw_time(0)), Err(IoError::BufferFull));
}

#[test]
fn escapes_match_polarity_changes_over_all_digits() {
    let glyphs: Vec<Glyph> = (0..10).map(Glyph::Digit).chain([Glyph::Colon]).collect();
    let out = render(&glyphs, None);
    let mut changes = 0;
    let mut filled = false;
    for line in 0..LINE_COUNT {
        for g in &glyphs {
            for d in g.row(line).iter().map(|d| d.value()).chain([-1]) {
                if d != 0 && (d > 0) != filled {
                    changes += 1;
                    filled = d > 0;
                }
            }
        }
    }
    assert_eq!(count_escapes(&out), changes);
}

#[test]
fn zero_length_render_writes_only_margins_and_line_feeds() {
    let out = render(&[], Some(b"ab"));
    assert_eq!(out, b"ab\nab\nab\nab\nab\n");
}
