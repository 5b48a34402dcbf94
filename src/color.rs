//! Color descriptors and their ANSI select-graphic-rendition sequences.
use vstd::prelude::*;

use vstd::slice::{slice_subrange, slice_to_vec};

use crate::decimal::{decimal, lemma_decimal_len};

verus! {

/// The longest sequence the codec produces: `ESC [48;2;255;255;255m`.
pub const COLOR_SEQUENCE_SIZE: usize = 19;

/// The eight base colors of a terminal palette.
#[derive(Clone, Copy, Debug, PartialEq, Eq)]
pub enum Literal {
    Black,
    Red,
    Green,
    Yellow,
    Blue,
    Magenta,
    Cyan,
    White,
}

/// An abstract color descriptor.
#[derive(Clone, Copy, Debug, PartialEq, Eq)]
pub enum Color {
    Normal(Literal),
    Bright(Literal),
    Ansi(u8),
    Rgb { r: u8, g: u8, b: u8 },
    Clear,
}

/// Which plane a sequence colors: the glyphs themselves or the cell behind them.
#[derive(Clone, Copy, Debug, PartialEq, Eq)]
pub enum Plane {
    Foreground,
    Background,
}

impl Literal {
    /// Position of the color in the palette, 0 to 7.
    pub open spec fn code_spec(self) -> nat {
        match self {
            Literal::Black => 0,
            Literal::Red => 1,
            Literal::Green => 2,
            Literal::Yellow => 3,
            Literal::Blue => 4,
            Literal::Magenta => 5,
            Literal::Cyan => 6,
            Literal::White => 7,
        }
    }

    /// Position of the color in the palette, 0 to 7.
    pub fn code(self) -> (r: u64)
        ensures
            r == self.code_spec(),
    {
        match self {
            Literal::Black => 0,
            Literal::Red => 1,
            Literal::Green => 2,
            Literal::Yellow => 3,
            Literal::Blue => 4,
            Literal::Magenta => 5,
            Literal::Cyan => 6,
            Literal::White => 7,
        }
    }
}

/// The palette entry at position `k`, if there is one.
pub open spec fn literal_of(k: nat) -> Option<Literal> {
    if k == 0 {
        Some(Literal::Black)
    } else if k == 1 {
        Some(Literal::Red)
    } else if k == 2 {
        Some(Literal::Green)
    } else if k == 3 {
        Some(Literal::Yellow)
    } else if k == 4 {
        Some(Literal::Blue)
    } else if k == 5 {
        Some(Literal::Magenta)
    } else if k == 6 {
        Some(Literal::Cyan)
    } else if k == 7 {
        Some(Literal::White)
    } else {
        None
    }
}

/// The base parameter of a plane: 30 for the foreground, 40 for the background.
pub open spec fn plane_base(plane: Plane) -> nat {
    match plane {
        Plane::Foreground => 30,
        Plane::Background => 40,
    }
}

/// The numeric parameters of the sequence that selects `c` on `plane`.
pub open spec fn params(c: Color, plane: Plane) -> Seq<nat> {
    let base = plane_base(plane);
    match c {
        Color::Normal(l) => seq![base + l.code_spec()],
        Color::Bright(l) => seq![base + 60 + l.code_spec()],
        Color::Ansi(n) => seq![base + 8, 5, n as nat],
        Color::Rgb { r, g, b } => seq![base + 8, 2, r as nat, g as nat, b as nat],
        Color::Clear => seq![base + 9],
    }
}

/// Parameters in decimal, separated by `;`.
pub open spec fn join(ps: Seq<nat>) -> Seq<u8>
    decreases ps.len(),
{
    if ps.len() == 0 {
        Seq::empty()
    } else if ps.len() == 1 {
        decimal(ps[0])
    } else {
        join(ps.drop_last()).push(59u8) + decimal(ps.last())
    }
}

/// The full sequence: `ESC [`, the parameters, `m`.
pub open spec fn sequence(c: Color, plane: Plane) -> Seq<u8> {
    seq![27u8, 91u8] + join(params(c, plane)) + seq![109u8]
}

/// Reads `;`-separated decimal parameters, left to right.
pub open spec fn parse_params(s: Seq<u8>) -> Seq<nat>
    decreases s.len(),
{
    if s.len() == 0 {
        seq![0nat]
    } else {
        let p = parse_params(s.drop_last());
        let b = s.last();
        if b == 59 {
            p.push(0)
        } else {
            p.update(p.len() - 1, p.last() * 10 + (b - 48) as nat)
        }
    }
}

/// The parameters of a sequence `ESC [ ... m`.
pub open spec fn decode_params(s: Seq<u8>) -> Seq<nat> {
    parse_params(s.subrange(2, s.len() - 1))
}

/// The descriptor and plane that a list of parameters selects, if any.
pub open spec fn color_of_params(ps: Seq<nat>) -> Option<(Color, Plane)> {
    if ps.len() == 1 {
        let k = ps[0];
        if 30 <= k <= 37 {
            Some((Color::Normal(literal_of((k - 30) as nat).unwrap()), Plane::Foreground))
        } else if 40 <= k <= 47 {
            Some((Color::Normal(literal_of((k - 40) as nat).unwrap()), Plane::Background))
        } else if 90 <= k <= 97 {
            Some((Color::Bright(literal_of((k - 90) as nat).unwrap()), Plane::Foreground))
        } else if 100 <= k <= 107 {
            Some((Color::Bright(literal_of((k - 100) as nat).unwrap()), Plane::Background))
        } else if k == 39 {
            Some((Color::Clear, Plane::Foreground))
        } else if k == 49 {
            Some((Color::Clear, Plane::Background))
        } else {
            None
        }
    } else if (ps.len() == 3 || ps.len() == 5) && (ps[0] == 38 || ps[0] == 48) {
        let plane = if ps[0] == 38 {
            Plane::Foreground
        } else {
            Plane::Background
        };
        if ps.len() == 3 && ps[1] == 5 && ps[2] < 256 {
            Some((Color::Ansi(ps[2] as u8), plane))
        } else if ps.len() == 5 && ps[1] == 2 && ps[2] < 256 && ps[3] < 256 && ps[4] < 256 {
            Some((Color::Rgb { r: ps[2] as u8, g: ps[3] as u8, b: ps[4] as u8 }, plane))
        } else {
            None
        }
    } else {
        None
    }
}

proof fn lemma_parse_nonempty(s: Seq<u8>)
    ensures
        parse_params(s).len() >= 1,
    decreases s.len(),
{
    if s.len() > 0 {
        lemma_parse_nonempty(s.drop_last());
    }
}

proof fn lemma_parse_separator(x: Seq<u8>)
    ensures
        parse_params(x.push(59u8)) == parse_params(x).push(0),
{
    assert(x.push(59u8).drop_last() =~= x);
}

proof fn lemma_parse_decimal(x: Seq<u8>, n: nat)
    requires
        parse_params(x).last() == 0,
    ensures
        parse_params(x + decimal(n)) == parse_params(x).update(parse_params(x).len() - 1, n),
    decreases n,
{
    lemma_parse_nonempty(x);
    let p = parse_params(x);
    if n < 10 {
        assert((x + decimal(n)).drop_last() =~= x);
    } else {
        lemma_parse_decimal(x, n / 10);
        assert(x + decimal(n) =~= (x + decimal(n / 10)).push((48 + n % 10) as u8));
        assert((x + decimal(n)).drop_last() =~= x + decimal(n / 10));
        assert(p.update(p.len() - 1, n / 10).update(p.len() - 1, n) =~= p.update(p.len() - 1, n));
    }
}

proof fn lemma_parse_join(ps: Seq<nat>)
    requires
        ps.len() >= 1,
    ensures
        parse_params(join(ps)) == ps,
    decreases ps.len(),
{
    if ps.len() == 1 {
        assert(Seq::<u8>::empty() + decimal(ps[0]) =~= decimal(ps[0]));
        lemma_parse_decimal(Seq::empty(), ps[0]);
        assert(seq![0nat].update(0, ps[0]) =~= ps);
    } else {
        let init = ps.drop_last();
        lemma_parse_join(init);
        lemma_parse_separator(join(init));
        lemma_parse_decimal(join(init).push(59u8), ps.last());
        assert(init.push(0).update(init.len() as int, ps.last()) =~= ps);
    }
}

/// Decoding the parameters of an encoded sequence gives back the descriptor's
/// values, and from them the descriptor and its plane; no sequence is longer
/// than nineteen bytes.
pub proof fn lemma_sequence_round_trip(c: Color, plane: Plane)
    ensures
        sequence(c, plane).len() <= COLOR_SEQUENCE_SIZE,
        decode_params(sequence(c, plane)) == params(c, plane),
        color_of_params(decode_params(sequence(c, plane))) == Some((c, plane)),
{
    let ps = params(c, plane);
    let s = sequence(c, plane);
    lemma_parse_join(ps);
    assert(s.subrange(2, s.len() - 1) =~= join(ps));
    lemma_join_len(ps);
    match c {
        Color::Normal(l) => {
            assert(literal_of(l.code_spec()) == Some(l));
        },
        Color::Bright(l) => {
            assert(literal_of(l.code_spec()) == Some(l));
        },
        _ => {},
    }
}

proof fn lemma_join_len(ps: Seq<nat>)
    requires
        ps.len() == 1 || ps.len() == 3 || ps.len() == 5,
        forall|i: int| 0 <= i < ps.len() ==> #[trigger] ps[i] < 1000,
        ps.len() == 5 ==> ps[0] < 100 && ps[1] < 10,
    ensures
        join(ps).len() <= COLOR_SEQUENCE_SIZE - 3,
{
    let drop1 = ps.drop_last();
    let drop2 = drop1.drop_last();
    let drop3 = drop2.drop_last();
    let drop4 = drop3.drop_last();
    lemma_decimal_len(ps[0]);
    if ps.len() >= 2 {
        lemma_decimal_len(ps[1]);
    }
    if ps.len() >= 3 {
        lemma_decimal_len(ps[2]);
    }
    if ps.len() >= 4 {
        lemma_decimal_len(ps[3]);
    }
    if ps.len() >= 5 {
        lemma_decimal_len(ps[4]);
    }
    if ps.len() == 5 {
        assert(join(drop4).len() <= 2);
        assert(join(drop3).len() <= 4);
        assert(join(drop2).len() <= 8);
        assert(join(drop1).len() <= 12);
    } else if ps.len() == 3 {
        assert(join(drop2).len() <= 3);
        assert(join(drop1).len() <= 7);
    }
}

impl Color {
    /// The escape sequence that selects this color on `plane`.
    pub fn encode(self, plane: Plane) -> (r: Vec<u8>)
        ensures
            r@ == sequence(self, plane),
            r@.len() <= COLOR_SEQUENCE_SIZE,
    {
        let mut buf = [0u8; COLOR_SEQUENCE_SIZE];
        let n = self.ansi_sequence(plane, &mut buf);
        proof {
            lemma_sequence_round_trip(self, plane);
        }
        slice_to_vec(slice_subrange(buf.as_slice(), 0, n))
    }

    /// The numeric parameters that select this color on `plane`, as a fixed
    /// array and the number of them in use.
    fn param_list(self, plane: Plane) -> (r: ([u64; 5], usize))
        ensures
            r.1 == params(self, plane).len(),
            r.1 >= 1,
            forall|i: int| 0 <= i < r.1 ==> #[trigger] r.0@[i] as nat == params(self, plane)[i],
    {
        let base: u64 = match plane {
            Plane::Foreground => 30,
            Plane::Background => 40,
        };
        match self {
            Color::Normal(l) => ([base + l.code(), 0, 0, 0, 0], 1),
            Color::Bright(l) => ([base + 60 + l.code(), 0, 0, 0, 0], 1),
            Color::Ansi(n) => ([base + 8, 5, n as u64, 0, 0], 3),
            Color::Rgb { r, g, b } => ([base + 8, 2, r as u64, g as u64, b as u64], 5),
            Color::Clear => ([base + 9, 0, 0, 0, 0], 1),
        }
    }

    /// Writes the sequence for `plane` at the start of `buf`, without
    /// allocating, and returns its length; the rest of `buf` is left as it was.
    pub fn ansi_sequence(self, plane: Plane, buf: &mut [u8; COLOR_SEQUENCE_SIZE]) -> (n: usize)
        ensures
            n == sequence(self, plane).len(),
            final(buf)@.subrange(0, n as int) == sequence(self, plane),
            final(buf)@.subrange(n as int, COLOR_SEQUENCE_SIZE as int) == old(buf)@.subrange(
                n as int,
                COLOR_SEQUENCE_SIZE as int,
            ),
    {
        let ghost target = sequence(self, plane);
        let ghost ps = params(self, plane);
        proof {
            lemma_sequence_round_trip(self, plane);
        }
        let (vals, count) = self.param_list(plane);
        buf[0] = 27u8;
        buf[1] = 91u8;
        proof {
            lemma_join_prefix(ps, 1);
            assert(ps.take(1).drop_last().len() == 0);
            assert(join(ps.take(1)) == decimal(ps[0]));
        }
        let mut pos = put_decimal(buf, 2, vals[0]);
        let mut i: usize = 1;
        while i < count
            invariant
                1 <= i <= count,
                count == ps.len(),
                ps == params(self, plane),
                target == seq![27u8, 91u8] + join(ps) + seq![109u8],
                target.len() <= COLOR_SEQUENCE_SIZE,
                forall|k: int| 0 <= k < count ==> #[trigger] vals@[k] as nat == ps[k],
                pos == 2 + join(ps.take(i as int)).len(),
                join(ps.take(i as int)).is_prefix_of(join(ps)),
                forall|j: int| 0 <= j < pos ==> buf@[j] == target[j],
                forall|j: int| pos <= j < COLOR_SEQUENCE_SIZE ==> buf@[j] == old(buf)@[j],
            decreases count - i,
        {
            proof {
                lemma_join_prefix(ps, i + 1);
                assert(ps.take(i + 1).drop_last() =~= ps.take(i as int));
                assert(ps.take(i + 1).last() == ps[i as int]);
            }
            let ghost next = join(ps.take(i + 1));
            assert(next == join(ps.take(i as int)).push(59u8) + decimal(ps[i as int]));
            buf[pos] = 59u8;
            proof {
                assert(next[pos - 2] == 59u8);
                assert(target[pos as int] == join(ps)[pos - 2]);
            }
            pos = put_decimal(buf, pos + 1, vals[i]);
            proof {
                assert forall|j: int| 0 <= j < pos implies buf@[j] == target[j] by {
                    if j >= 2 {
                        assert(target[j] == join(ps)[j - 2]);
                        assert(join(ps)[j - 2] == next[j - 2]);
                    }
                }
            }
            i = i + 1;
        }
        proof {
            assert(ps.take(count as int) =~= ps);
        }
        buf[pos] = 109u8;
        let n = pos + 1;
        assert(buf@.subrange(0, n as int) =~= target);
        assert(buf@.subrange(n as int, COLOR_SEQUENCE_SIZE as int) =~= old(buf)@.subrange(
            n as int,
            COLOR_SEQUENCE_SIZE as int,
        ));
        n
    }

    /// Writes the foreground sequence at the start of `buf` and returns its length.
    pub fn ansi_sequence_fg(self, buf: &mut [u8; COLOR_SEQUENCE_SIZE]) -> (n: usize)
        ensures
            n == sequence(self, Plane::Foreground).len(),
            final(buf)@.subrange(0, n as int) == sequence(self, Plane::Foreground),
            final(buf)@.subrange(n as int, COLOR_SEQUENCE_SIZE as int) == old(buf)@.subrange(
                n as int,
                COLOR_SEQUENCE_SIZE as int,
            ),
    {
        self.ansi_sequence(Plane::Foreground, buf)
    }

    /// Writes the background sequence at the start of `buf` and returns its length.
    pub fn ansi_sequence_bg(self, buf: &mut [u8; COLOR_SEQUENCE_SIZE]) -> (n: usize)
        ensures
            n == sequence(self, Plane::Background).len(),
            final(buf)@.subrange(0, n as int) == sequence(self, Plane::Background),
            final(buf)@.subrange(n as int, COLOR_SEQUENCE_SIZE as int) == old(buf)@.subrange(
                n as int,
                COLOR_SEQUENCE_SIZE as int,
            ),
    {
        self.ansi_sequence(Plane::Background, buf)
    }
}

/// Writes the decimal text of `n` into `buf` from `pos` on and returns where
/// it ends; every other byte is left as it was.
fn put_decimal(buf: &mut [u8; COLOR_SEQUENCE_SIZE], pos: usize, n: u64) -> (end: usize)
    requires
        pos + decimal(n as nat).len() <= COLOR_SEQUENCE_SIZE,
    ensures
        end == pos + decimal(n as nat).len(),
        forall|j: int| 0 <= j < pos ==> final(buf)@[j] == old(buf)@[j],
        forall|j: int| pos <= j < end ==> final(buf)@[j] == decimal(n as nat)[j - pos],
        forall|j: int| end <= j < COLOR_SEQUENCE_SIZE ==> final(buf)@[j] == old(buf)@[j],
    decreases n,
{
    let mid = if n >= 10 {
        put_decimal(buf, pos, n / 10)
    } else {
        pos
    };
    buf[mid] = 48u8 + (n % 10) as u8;
    mid + 1
}

proof fn lemma_join_prefix(ps: Seq<nat>, i: int)
    requires
        1 <= i <= ps.len(),
    ensures
        join(ps.take(i)).is_prefix_of(join(ps)),
    decreases ps.len(),
{
    if i == ps.len() {
        assert(ps.take(i) =~= ps);
        let j = join(ps);
        assert(j =~= j.subrange(0, j.len() as int));
    } else {
        let init = ps.drop_last();
        lemma_join_prefix(init, i);
        assert(init.take(i) =~= ps.take(i));
        let a = join(ps.take(i));
        let b = join(init);
        let c = join(ps);
        assert(c == b.push(59u8) + decimal(ps.last()));
        assert(a =~= c.subrange(0, a.len() as int));
    }
}

} // verus!
