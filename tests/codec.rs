use clock::color::{Color, Literal, Plane, COLOR_SEQUENCE_SIZE};
use clock::decimal::push_decimal;

fn params_of(seq: &[u8]) -> Vec<u64> {
    assert_eq!(seq[0], 0x1b);
    assert_eq!(seq[1], b'[');
    assert_eq!(*seq.last().unwrap(), b'm');
    let body = std::str::from_utf8(&seq[2..seq.len() - 1]).unwrap();
    body.split(';').map(|p| p.parse().unwrap()).collect()
}

#[test]
fn decimal_text_of_small_and_large_values() {
    let mut out = Vec::new();
    push_decimal(&mut out, 0);
    assert_eq!(out, b"0");
    let mut out = b"x".to_vec();
    push_decimal(&mut out, 255);
    assert_eq!(out, b"x255");
    let mut out = Vec::new();
    push_decimal(&mut out, u64::MAX);
    assert_eq!(out, b"18446744073709551615");
}

#[test]
fn named_colors_on_both_planes() {
    assert_eq!(Color::Normal(Literal::Black).encode(Plane::Foreground), b"\x1b[30m");
    assert_eq!(Color::Normal(Literal::White).encode(Plane::Background), b"\x1b[47m");
    assert_eq!(Color::Bright(Literal::Blue).encode(Plane::Foreground), b"\x1b[94m");
    assert_eq!(Color::Bright(Literal::Red).encode(Plane::Background), b"\x1b[101m");
    assert_eq!(Color::Clear.encode(Plane::Foreground), b"\x1b[39m");
    assert_eq!(Color::Clear.encode(Plane::Background), b"\x1b[49m");
}

#[test]
fn indexed_and_rgb_colors() {
    assert_eq!(Color::Ansi(0).encode(Plane::Foreground), b"\x1b[38;5;0m");
    assert_eq!(Color::Ansi(208).encode(Plane::Background), b"\x1b[48;5;208m");
    assert_eq!(
        Color::Rgb { r: 1, g: 22, b: 255 }.encode(Plane::Foreground),
        b"\x1b[38;2;1;22;255m"
    );
}

#[test]
fn longest_sequence_fills_the_buffer_exactly() {
    let mut buf = [0u8; COLOR_SEQUENCE_SIZE];
    let n = Color::Rgb { r: 255, g: 255, b: 255 }.ansi_sequence_bg(&mut buf);
    assert_eq!(n, 19);
    assert_eq!(&buf[..n], b"\x1b[48;2;255;255;255m");
}

#[test]
fn short_sequence_leaves_rest_of_buffer() {
    let mut buf = [7u8; COLOR_SEQUENCE_SIZE];
    let n = Color::Normal(Literal::Green).ansi_sequence_fg(&mut buf);
    assert_eq!(n, 5);
    assert_eq!(&buf[..n], b"\x1b[32m");
    assert!(buf[n..].iter().all(|&b| b == 7));
}

#[test]
fn every_descriptor_fits_and_decodes_to_its_values() {
    let literals = [
        Literal::Black,
        Literal::Red,
        Literal::Green,
        Literal::Yellow,
        Literal::Blue,
        Literal::Magenta,
        Literal::Cyan,
        Literal::White,
    ];
    for plane in [Plane::Foreground, Plane::Background] {
        let base: u64 = if plane == Plane::Foreground { 30 } else { 40 };
        for (k, l) in literals.iter().enumerate() {
            let s = Color::Normal(*l).encode(plane);
            assert_eq!(params_of(&s), vec![base + k as u64]);
            let s = Color::Bright(*l).encode(plane);
            assert_eq!(params_of(&s), vec![base + 60 + k as u64]);
        }
        for n in [0u8, 9, 10, 99, 100, 255] {
            let s = Color::Ansi(n).encode(plane);
            assert!(s.len() <= COLOR_SEQUENCE_SIZE);
            assert_eq!(params_of(&s), vec![base + 8, 5, n as u64]);
            let s = Color::Rgb { r: n, g: 255 - n, b: n / 2 }.encode(plane);
            assert!(s.len() <= COLOR_SEQUENCE_SIZE);
            assert_eq!(
                params_of(&s),
                vec![base + 8, 2, n as u64, (255 - n) as u64, (n / 2) as u64]
            );
        }
        assert_eq!(params_of(&Color::Clear.encode(plane)), vec![base + 9]);
    }
}
