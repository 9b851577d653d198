use vt_avt::style::{decode_color, decode_pen, encode_pen, CellColor, Pen};
use vt_avt::DecodeError;

fn enc_pen(p: &Pen) -> Vec<u8> {
    let mut v = Vec::new();
    encode_pen(p, &mut v);
    v
}

#[test]
fn pen_default_encoding() {
    assert_eq!(enc_pen(&Pen::plain()), vec![2, 2, 0]);
}

#[test]
fn pen_attr_bits() {
    let mut p = Pen::plain();
    p.bold = true;
    assert_eq!(enc_pen(&p), vec![2, 2, 1]);
    p.italic = true;
    assert_eq!(enc_pen(&p), vec![2, 2, 3]);
    p.underline = true;
    p.strikethrough = true;
    p.blink = true;
    p.inverse = true;
    assert_eq!(enc_pen(&p), vec![2, 2, 63]);
}

#[test]
fn pen_color_encoding() {
    let mut p = Pen::plain();
    p.foreground = CellColor::Indexed(7);
    p.background = CellColor::Rgb(1, 2, 3);
    assert_eq!(enc_pen(&p), vec![0, 7, 1, 1, 2, 3, 0]);
}

#[test]
fn pen_roundtrip() {
    let pens = [
        Pen::plain(),
        Pen { foreground: CellColor::Indexed(255), ..Pen::plain() },
        Pen { background: CellColor::Rgb(9, 8, 7), bold: true, blink: true, ..Pen::plain() },
        Pen {
            foreground: CellColor::Rgb(0, 0, 0),
            background: CellColor::Indexed(0),
            bold: true,
            italic: true,
            underline: true,
            strikethrough: true,
            blink: true,
            inverse: true,
        },
    ];
    for p in pens {
        let b = enc_pen(&p);
        assert_eq!(decode_pen(&b, 0), Ok((p, b.len())));
    }
}

#[test]
fn color_unknown_tag_fails() {
    assert_eq!(decode_color(&[3], 0), Err(DecodeError::UnsupportedColorTag));
    assert_eq!(decode_color(&[255], 0), Err(DecodeError::UnsupportedColorTag));
}

#[test]
fn pen_noncanonical_attr_byte_fails() {
    assert_eq!(decode_pen(&[2, 2, 64], 0), Err(DecodeError::MalformedInput));
    assert_eq!(decode_pen(&[2, 2, 255], 0), Err(DecodeError::MalformedInput));
}

#[test]
fn pen_truncated_fails() {
    assert_eq!(decode_pen(&[], 0), Err(DecodeError::MalformedInput));
    assert_eq!(decode_pen(&[2], 0), Err(DecodeError::MalformedInput));
    assert_eq!(decode_pen(&[2, 2], 0), Err(DecodeError::MalformedInput));
    assert_eq!(decode_pen(&[0], 0), Err(DecodeError::MalformedInput));
    assert_eq!(decode_pen(&[1, 1, 2], 0), Err(DecodeError::MalformedInput));
}
