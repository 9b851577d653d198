//! Visual attributes of one screen cell and their fixed byte layout: for each
//! of foreground and background a tagged color (tag 0 + index, tag 1 + three
//! components, or tag 2 for unset), then one attribute byte holding six flag
//! bits.
use vstd::prelude::*;

use crate::DecodeError;

verus! {

/// A cell color: a palette index, a direct RGB value, or unset (terminal
/// default).
#[derive(Debug, Clone, Copy, PartialEq, Eq, Structural)]
pub enum CellColor {
    Indexed(u8),
    Rgb(u8, u8, u8),
    Unset,
}

/// The visual attributes of one cell.
#[derive(Debug, Clone, Copy, PartialEq, Eq, Structural)]
pub struct Pen {
    pub foreground: CellColor,
    pub background: CellColor,
    pub bold: bool,
    pub italic: bool,
    pub underline: bool,
    pub strikethrough: bool,
    pub blink: bool,
    pub inverse: bool,
}

/// The pen with both colors unset and no flags: the state of a blank cell.
pub open spec fn plain_pen() -> Pen {
    Pen {
        foreground: CellColor::Unset,
        background: CellColor::Unset,
        bold: false,
        italic: false,
        underline: false,
        strikethrough: false,
        blink: false,
        inverse: false,
    }
}

impl Pen {
    /// Builds the default pen.
    pub fn plain() -> (p: Pen)
        ensures
            p == plain_pen(),
    {
        Pen {
            foreground: CellColor::Unset,
            background: CellColor::Unset,
            bold: false,
            italic: false,
            underline: false,
            strikethrough: false,
            blink: false,
            inverse: false,
        }
    }
}

/// The encoding of one color: its tag byte followed by its components.
pub open spec fn color_bytes(c: CellColor) -> Seq<u8> {
    match c {
        CellColor::Indexed(i) => seq![0u8, i],
        CellColor::Rgb(r, g, b) => seq![1u8, r, g, b],
        CellColor::Unset => seq![2u8],
    }
}

/// The attribute byte: bit 0 bold, bit 1 italic, bit 2 underline, bit 3
/// strikethrough, bit 4 blink, bit 5 inverse; bits 6 and 7 are zero.
pub open spec fn attr_byte(p: Pen) -> u8 {
    ((if p.bold { 1int } else { 0 }) + (if p.italic { 2int } else { 0 }) + (if p.underline {
        4int
    } else {
        0
    }) + (if p.strikethrough { 8int } else { 0 }) + (if p.blink { 16int } else { 0 }) + (
    if p.inverse {
        32int
    } else {
        0
    })) as u8
}

/// The full encoding of a pen: foreground color, background color, attribute
/// byte.
pub open spec fn pen_bytes(p: Pen) -> Seq<u8> {
    color_bytes(p.foreground) + color_bytes(p.background) + seq![attr_byte(p)]
}

/// The pen described by two colors and a canonical attribute byte.
pub open spec fn pen_from_parts(fg: CellColor, bg: CellColor, a: u8) -> Pen {
    Pen {
        foreground: fg,
        background: bg,
        bold: a as int % 2 == 1,
        italic: a as int / 2 % 2 == 1,
        underline: a as int / 4 % 2 == 1,
        strikethrough: a as int / 8 % 2 == 1,
        blink: a as int / 16 % 2 == 1,
        inverse: a as int / 32 % 2 == 1,
    }
}

/// Total parse of one color at position `i`: an unknown tag byte fails with
/// `UnsupportedColorTag`, a stream that ends inside the components with
/// `MalformedInput`.
pub open spec fn parse_color(b: Seq<u8>, i: int) -> Result<(CellColor, int), DecodeError> {
    if i < 0 || i >= b.len() {
        Err(DecodeError::MalformedInput)
    } else if b[i] == 0 {
        if i + 1 < b.len() {
            Ok((CellColor::Indexed(b[i + 1]), i + 2))
        } else {
            Err(DecodeError::MalformedInput)
        }
    } else if b[i] == 1 {
        if i + 3 < b.len() {
            Ok((CellColor::Rgb(b[i + 1], b[i + 2], b[i + 3]), i + 4))
        } else {
            Err(DecodeError::MalformedInput)
        }
    } else if b[i] == 2 {
        Ok((CellColor::Unset, i + 1))
    } else {
        Err(DecodeError::UnsupportedColorTag)
    }
}

/// Total parse of one pen: two colors, then the attribute byte, which must be
/// canonical (bits 6 and 7 clear) so that no two byte strings parse to one
/// pen.
pub open spec fn parse_pen(b: Seq<u8>, i: int) -> Result<(Pen, int), DecodeError> {
    match parse_color(b, i) {
        Err(e) => Err(e),
        Ok((fg, j)) => match parse_color(b, j) {
            Err(e) => Err(e),
            Ok((bg, k)) => if k < b.len() && b[k] < 64 {
                Ok((pen_from_parts(fg, bg, b[k]), k + 1))
            } else {
                Err(DecodeError::MalformedInput)
            },
        },
    }
}

/// Appends the encoding of `c` to `out`.
pub fn encode_color(c: CellColor, out: &mut Vec<u8>)
    ensures
        final(out)@ == old(out)@ + color_bytes(c),
{
    match c {
        CellColor::Indexed(i) => {
            out.push(0);
            out.push(i);
        },
        CellColor::Rgb(r, g, b) => {
            out.push(1);
            out.push(r);
            out.push(g);
            out.push(b);
        },
        CellColor::Unset => {
            out.push(2);
        },
    }
    assert(out@ =~= old(out)@ + color_bytes(c));
}

/// Appends the encoding of `p` to `out`.  Every pen has exactly one encoding.
pub fn encode_pen(p: &Pen, out: &mut Vec<u8>)
    ensures
        final(out)@ == old(out)@ + pen_bytes(*p),
{
    encode_color(p.foreground, out);
    encode_color(p.background, out);
    let mut a: u8 = 0;
    if p.bold {
        a = a + 1;
    }
    if p.italic {
        a = a + 2;
    }
    if p.underline {
        a = a + 4;
    }
    if p.strikethrough {
        a = a + 8;
    }
    if p.blink {
        a = a + 16;
    }
    if p.inverse {
        a = a + 32;
    }
    assert(a == attr_byte(*p));
    out.push(a);
    assert(out@ =~= old(out)@ + pen_bytes(*p));
}

/// Decodes one color at position `i`, exactly as the spec parse does.
pub fn decode_color(b: &[u8], i: usize) -> (r: Result<(CellColor, usize), DecodeError>)
    ensures
        match r {
            Ok(p) => parse_color(b@, i as int) == Ok::<_, DecodeError>((p.0, p.1 as int)),
            Err(e) => parse_color(b@, i as int) == Err::<(CellColor, int), _>(e),
        },
{
    if i >= b.len() {
        return Err(DecodeError::MalformedInput);
    }
    let tag = b[i];
    if tag == 0 {
        if i + 1 < b.len() {
            Ok((CellColor::Indexed(b[i + 1]), i + 2))
        } else {
            Err(DecodeError::MalformedInput)
        }
    } else if tag == 1 {
        if b.len() - i > 3 {
            Ok((CellColor::Rgb(b[i + 1], b[i + 2], b[i + 3]), i + 4))
        } else {
            Err(DecodeError::MalformedInput)
        }
    } else if tag == 2 {
        Ok((CellColor::Unset, i + 1))
    } else {
        Err(DecodeError::UnsupportedColorTag)
    }
}

/// Decodes one pen at position `i`, exactly as the spec parse does.
pub fn decode_pen(b: &[u8], i: usize) -> (r: Result<(Pen, usize), DecodeError>)
    ensures
        match r {
            Ok(p) => parse_pen(b@, i as int) == Ok::<_, DecodeError>((p.0, p.1 as int)),
            Err(e) => parse_pen(b@, i as int) == Err::<(Pen, int), _>(e),
        },
{
    let (fg, j) = match decode_color(b, i) {
        Ok(p) => p,
        Err(e) => {
            return Err(e);
        },
    };
    let (bg, k) = match decode_color(b, j) {
        Ok(p) => p,
        Err(e) => {
            return Err(e);
        },
    };
    if k < b.len() && b[k] < 64 {
        let a = b[k];
        let p = Pen {
            foreground: fg,
            background: bg,
            bold: a % 2 == 1,
            italic: a / 2 % 2 == 1,
            underline: a / 4 % 2 == 1,
            strikethrough: a / 8 % 2 == 1,
            blink: a / 16 % 2 == 1,
            inverse: a / 32 % 2 == 1,
        };
        Ok((p, k + 1))
    } else {
        Err(DecodeError::MalformedInput)
    }
}

/// The attribute byte is canonical and its six divisions recover the six
/// flags.
pub proof fn lemma_attr_byte_roundtrip(p: Pen)
    ensures
        attr_byte(p) < 64,
        pen_from_parts(p.foreground, p.background, attr_byte(p)) == p,
{
    let b0: int = if p.bold { 1 } else { 0 };
    let b1: int = if p.italic { 1 } else { 0 };
    let b2: int = if p.underline { 1 } else { 0 };
    let b3: int = if p.strikethrough { 1 } else { 0 };
    let b4: int = if p.blink { 1 } else { 0 };
    let b5: int = if p.inverse { 1 } else { 0 };
    let a: int = attr_byte(p) as int;
    assert(a == b0 + 2 * b1 + 4 * b2 + 8 * b3 + 16 * b4 + 32 * b5);
    assert(a % 2 == b0 && a / 2 % 2 == b1 && a / 4 % 2 == b2 && a / 8 % 2 == b3 && a / 16 % 2 == b4
        && a / 32 % 2 == b5) by (nonlinear_arith)
        requires
            a == b0 + 2 * b1 + 4 * b2 + 8 * b3 + 16 * b4 + 32 * b5,
            0 <= b0 <= 1,
            0 <= b1 <= 1,
            0 <= b2 <= 1,
            0 <= b3 <= 1,
            0 <= b4 <= 1,
            0 <= b5 <= 1,
    ;
}

/// A canonical attribute byte is rebuilt exactly from the flags it decodes
/// to.
pub proof fn lemma_attr_byte_canonical(fg: CellColor, bg: CellColor, a: u8)
    requires
        a < 64,
    ensures
        attr_byte(pen_from_parts(fg, bg, a)) == a,
{
    let p = pen_from_parts(fg, bg, a);
    let b0: int = if p.bold { 1 } else { 0 };
    let b1: int = if p.italic { 1 } else { 0 };
    let b2: int = if p.underline { 1 } else { 0 };
    let b3: int = if p.strikethrough { 1 } else { 0 };
    let b4: int = if p.blink { 1 } else { 0 };
    let b5: int = if p.inverse { 1 } else { 0 };
    assert(a as int == b0 + 2 * b1 + 4 * b2 + 8 * b3 + 16 * b4 + 32 * b5) by (nonlinear_arith)
        requires
            a < 64,
            b0 == a as int % 2,
            b1 == a as int / 2 % 2,
            b2 == a as int / 4 % 2,
            b3 == a as int / 8 % 2,
            b4 == a as int / 16 % 2,
            b5 == a as int / 32 % 2,
    ;
}

/// Parsing at a position where the encoding of `c` is embedded recovers `c`.
pub proof fn lemma_color_parse_embedded(b: Seq<u8>, i: int, c: CellColor)
    requires
        0 <= i,
        i + color_bytes(c).len() <= b.len(),
        b.subrange(i, i + color_bytes(c).len() as int) == color_bytes(c),
    ensures
        parse_color(b, i) == Ok::<_, DecodeError>((c, i + color_bytes(c).len())),
{
    let e = color_bytes(c);
    let s = b.subrange(i, i + e.len() as int);
    match c {
        CellColor::Indexed(x) => {
            assert(b[i] == s[0] && b[i + 1] == s[1]);
        },
        CellColor::Rgb(r, g, bl) => {
            assert(b[i] == s[0] && b[i + 1] == s[1] && b[i + 2] == s[2] && b[i + 3] == s[3]);
        },
        CellColor::Unset => {
            assert(b[i] == s[0]);
        },
    }
}

/// Parsing at a position where the encoding of `p` is embedded recovers `p`.
pub proof fn lemma_pen_parse_embedded(b: Seq<u8>, i: int, p: Pen)
    requires
        0 <= i,
        i + pen_bytes(p).len() <= b.len(),
        b.subrange(i, i + pen_bytes(p).len() as int) == pen_bytes(p),
    ensures
        parse_pen(b, i) == Ok::<_, DecodeError>((p, i + pen_bytes(p).len())),
{
    let ef = color_bytes(p.foreground);
    let eb = color_bytes(p.background);
    let e = pen_bytes(p);
    let s = b.subrange(i, i + e.len() as int);
    assert forall|k: int| 0 <= k < e.len() implies b[i + k] == e[k] by {
        assert(s[k] == b[i + k]);
    }
    assert(b.subrange(i, i + ef.len() as int) =~= ef) by {
        assert forall|m: int| 0 <= m < ef.len() implies b.subrange(i, i + ef.len() as int)[m]
            == ef[m] by {
            assert(b[i + m] == e[m]);
            assert(e[m] == (ef + eb)[m]);
        }
    }
    lemma_color_parse_embedded(b, i, p.foreground);
    let j = i + ef.len();
    assert(b.subrange(j, j + eb.len() as int) =~= eb) by {
        assert forall|m: int| 0 <= m < eb.len() implies b.subrange(j, j + eb.len() as int)[m]
            == eb[m] by {
            assert(b[i + (ef.len() + m)] == e[ef.len() + m]);
            assert(e[ef.len() + m] == (ef + eb)[ef.len() + m]);
            assert((ef + eb)[ef.len() + m] == eb[m]);
        }
    }
    lemma_color_parse_embedded(b, j, p.background);
    let k = j + eb.len();
    assert(b[i + (e.len() - 1)] == e[e.len() - 1]);
    assert(b[k] == attr_byte(p));
    lemma_attr_byte_roundtrip(p);
}

/// Pen decoding is injective: the bytes an accepted pen was parsed from are
/// exactly its unique encoding, so distinct accepted byte strings never parse
/// to the same pen.
pub proof fn lemma_pen_parse_canonical(b: Seq<u8>, i: int, p: Pen, j: int)
    requires
        parse_pen(b, i) == Ok::<_, DecodeError>((p, j)),
    ensures
        0 <= i <= j <= b.len(),
        b.subrange(i, j) == pen_bytes(p),
{
    let fg_r = parse_color(b, i);
    let (fg, j1) = fg_r.unwrap();
    let bg_r = parse_color(b, j1);
    let (bg, j2) = bg_r.unwrap();
    assert(b.subrange(i, j1) =~= color_bytes(fg));
    assert(b.subrange(j1, j2) =~= color_bytes(bg));
    lemma_attr_byte_canonical(fg, bg, b[j2]);
    assert(b.subrange(i, j) =~= pen_bytes(p));
}

} // verus!
