//! Content-stream operators. Numbers are fixed-point: a coordinate, size
//! or width `m` stands for `m / 1000` points and is written with at most
//! three decimals.

use vstd::prelude::*;
use vstd::string::StringSliceAdditionalSpecFns;
use crate::bytes::push_bytes;
use crate::pdf::num::{hex_bytes, milli_bytes, push_hex, push_milli, push_str};

verus! {

/// An RGB color, one byte per channel.
#[derive(Clone, Copy, PartialEq, Eq, Debug, Default)]
pub struct Rgb(pub u8, pub u8, pub u8);

/// A channel byte as a fraction of 255, rounded to thousandths.
pub open spec fn component_milli(c: u8) -> int {
    (2000 * c + 255) / 510
}

/// The operand text of a channel.
pub open spec fn component_bytes(c: u8) -> Seq<u8> {
    milli_bytes(component_milli(c))
}

/// A color-setting operator such as `0 0 0 rg` (fill) or `1 0.502 0 RG`
/// (stroke).
pub open spec fn color_op_bytes(color: Rgb, op: Seq<u8>) -> Seq<u8> {
    component_bytes(color.0) + " ".spec_bytes() + component_bytes(color.1) + " ".spec_bytes() + component_bytes(
        color.2,
    ) + " ".spec_bytes() + op
}

/// `x y w h`, the operands of `re`.
pub open spec fn rect_operands(x: i64, y: i64, w: i64, h: i64) -> Seq<u8> {
    milli_bytes(x as int) + " ".spec_bytes() + milli_bytes(y as int) + " ".spec_bytes() + milli_bytes(w as int)
        + " ".spec_bytes() + milli_bytes(h as int)
}

/// Bytes as a hex string body: two uppercase digits each.
pub open spec fn hex_string(bytes: Seq<u8>) -> Seq<u8>
    decreases bytes.len(),
{
    if bytes.len() == 0 {
        Seq::empty()
    } else {
        hex_string(bytes.drop_last()) + hex_bytes(bytes.last() as nat, 2, true)
    }
}

/// `BT /font size Tf <color> rg tx ty Td <hex> Tj ET`.
pub open spec fn text_block_bytes(font: Seq<u8>, size: i64, color: Rgb, tx: i64, ty: i64, encoded: Seq<u8>) -> Seq<
    u8,
> {
    "BT /".spec_bytes() + font + " ".spec_bytes() + milli_bytes(size as int) + " Tf ".spec_bytes() + color_op_bytes(
        color,
        "rg".spec_bytes(),
    ) + " ".spec_bytes() + milli_bytes(tx as int) + " ".spec_bytes() + milli_bytes(ty as int) + " Td <".spec_bytes()
        + hex_string(encoded) + "> Tj ET".spec_bytes()
}

/// A coordinate whose negation is representable.
pub open spec fn negatable(v: i64) -> bool {
    v > i64::MIN
}

/// Exact coordinates are kept in units of a 20-millionth of a thousandth
/// of a point, fine enough for half a thousandth times 0.5522848.
pub open spec fn fine_unit() -> int {
    20_000_000
}

/// An exact coordinate rounded to the nearest thousandth of a point,
/// halves away from zero.
pub open spec fn fine_to_milli(v: int) -> int {
    if v >= 0 {
        (v + 10_000_000) / 20_000_000
    } else {
        -((-v + 10_000_000) / 20_000_000)
    }
}

/// The corner radius in half-thousandths: `radius`, but at most half the
/// width and half the height.
pub open spec fn corner_halves(w: int, h: int, radius: int) -> int {
    let a = if 2 * radius < w {
        2 * radius
    } else {
        w
    };
    if a < h {
        a
    } else {
        h
    }
}

/// `a b`, a coordinate pair.
pub open spec fn pair_bytes(a: int, b: int) -> Seq<u8> {
    milli_bytes(a) + " ".spec_bytes() + milli_bytes(b)
}

/// `a b c d e f c\n`, a cubic Bézier segment.
pub open spec fn curve_bytes(a: int, b: int, c: int, d: int, e: int, f: int) -> Seq<u8> {
    pair_bytes(a, b) + " ".spec_bytes() + pair_bytes(c, d) + " ".spec_bytes() + pair_bytes(e, f) + " c\n".spec_bytes()
}

/// The rounded rectangle's outline with a corner radius of `rh`
/// half-thousandths: start after the bottom-left corner, then
/// counter-clockwise, each side a line and each corner a cubic curve whose
/// handles are the radius times 0.5522848 long, and `h` to close it. Each
/// coordinate is computed exactly and rounded once.
#[verifier::opaque]
pub open spec fn rounded_path(x: int, y: int, w: int, h: int, rh: int) -> Seq<u8> {
    let (xs, ys, ws, hs) = (x * fine_unit(), y * fine_unit(), w * fine_unit(), h * fine_unit());
    let r = rh * 10_000_000;
    let k = rh * 5_522_848;
    let m = |v: int| fine_to_milli(v);
    pair_bytes(m(xs + r), m(ys)) + " m\n".spec_bytes() + pair_bytes(m(xs + ws - r), m(ys)) + " l\n".spec_bytes()
        + curve_bytes(m(xs + ws - r + k), m(ys), m(xs + ws), m(ys + r - k), m(xs + ws), m(ys + r)) + pair_bytes(
        m(xs + ws),
        m(ys + hs - r),
    ) + " l\n".spec_bytes() + curve_bytes(
        m(xs + ws),
        m(ys + hs - r + k),
        m(xs + ws - r + k),
        m(ys + hs),
        m(xs + ws - r),
        m(ys + hs),
    ) + pair_bytes(m(xs + r), m(ys + hs)) + " l\n".spec_bytes() + curve_bytes(
        m(xs + r - k),
        m(ys + hs),
        m(xs),
        m(ys + hs - r + k),
        m(xs),
        m(ys + hs - r),
    ) + pair_bytes(m(xs), m(ys + r)) + " l\n".spec_bytes() + pair_bytes(m(xs), m(ys + r - k)) + " ".spec_bytes()
        + pair_bytes(m(xs + r - k), m(ys)) + " ".spec_bytes() + pair_bytes(m(xs + r), m(ys)) + " c\nh".spec_bytes()
}

/// An outline painted: filled `f`, stroked `S` or both `b`; nothing when
/// neither is asked for.
pub open spec fn painted_bytes(path: Seq<u8>, fill: Option<Rgb>, stroke: Option<(i64, Rgb)>) -> Seq<u8> {
    match (fill, stroke) {
        (Some(f), Some((sw, sc))) => color_op_bytes(f, "rg".spec_bytes()) + " ".spec_bytes() + color_op_bytes(
            sc,
            "RG".spec_bytes(),
        ) + " ".spec_bytes() + milli_bytes(sw as int) + " w\n".spec_bytes() + path + " b\n".spec_bytes(),
        (Some(f), None) => color_op_bytes(f, "rg".spec_bytes()) + "\n".spec_bytes() + path + " f\n".spec_bytes(),
        (None, Some((sw, sc))) => color_op_bytes(sc, "RG".spec_bytes()) + " ".spec_bytes() + milli_bytes(sw as int)
            + " w\n".spec_bytes() + path + " S\n".spec_bytes(),
        (None, None) => Seq::empty(),
    }
}

/// The dash pattern line, when there is one.
pub open spec fn dash_on_bytes(dash: Option<(i64, i64)>) -> Seq<u8> {
    match dash {
        Some((d, g)) => "[".spec_bytes() + milli_bytes(d as int) + " ".spec_bytes() + milli_bytes(g as int)
            + "] 0 d\n".spec_bytes(),
        None => Seq::empty(),
    }
}

/// Back to solid lines after a dash pattern.
pub open spec fn dash_off_bytes(dash: Option<(i64, i64)>) -> Seq<u8> {
    if dash is Some {
        "[] 0 d\n".spec_bytes()
    } else {
        Seq::empty()
    }
}

/// What `draw_rounded_rect` appends: the dash pattern if any, the painted
/// outline, then solid lines again after a dash.
pub open spec fn rounded_rect_bytes(
    x: i64,
    y: i64,
    w: i64,
    h: i64,
    radius: i64,
    fill: Option<Rgb>,
    stroke: Option<(i64, Rgb)>,
    dash: Option<(i64, i64)>,
) -> Seq<u8> {
    dash_on_bytes(dash) + painted_bytes(
        rounded_path(x as int, y as int, w as int, h as int, corner_halves(w as int, h as int, radius as int)),
        fill,
        stroke,
    ) + dash_off_bytes(dash)
}

/// A coordinate small enough that sums of a few stay in range (a billion
/// billion thousandths of a point).
pub open spec fn coordinate(v: i64) -> bool {
    -1_000_000_000_000_000 <= v <= 1_000_000_000_000_000
}

/// Appends `a b`.
fn push_pair(out: &mut Vec<u8>, a: i64, b: i64)
    ensures
        final(out)@ == old(out)@ + pair_bytes(a as int, b as int),
{
    let ghost start = out@;
    push_milli(out, a);
    push_str(out, " ");
    push_milli(out, b);
    assert(out@ =~= start + pair_bytes(a as int, b as int));
}

/// Appends a curve segment.
fn push_curve(out: &mut Vec<u8>, a: i64, b: i64, c: i64, d: i64, e: i64, f: i64)
    ensures
        final(out)@ == old(out)@ + curve_bytes(a as int, b as int, c as int, d as int, e as int, f as int),
{
    let ghost start = out@;
    push_pair(out, a, b);
    push_str(out, " ");
    push_pair(out, c, d);
    push_str(out, " ");
    push_pair(out, e, f);
    push_str(out, " c\n");
    assert(out@ =~= start + curve_bytes(a as int, b as int, c as int, d as int, e as int, f as int));
}

/// Appends the painted outline.
fn push_painted(out: &mut Vec<u8>, path: &Vec<u8>, fill: Option<Rgb>, stroke: Option<(i64, Rgb)>)
    ensures
        final(out)@ == old(out)@ + painted_bytes(path@, fill, stroke),
{
    match (fill, stroke) {
        (Some(f), Some((sw, sc))) => push_fill_stroke(out, path, f, sw, sc),
        (Some(f), None) => push_fill(out, path, f),
        (None, Some((sw, sc))) => push_stroke(out, path, sw, sc),
        (None, None) => {},
    }
}

/// Appends a filled and stroked outline.
fn push_fill_stroke(out: &mut Vec<u8>, path: &Vec<u8>, f: Rgb, sw: i64, sc: Rgb)
    ensures
        final(out)@ == old(out)@ + painted_bytes(path@, Some(f), Some((sw, sc))),
{
    let ghost start = out@;
    push_color_op(out, f, "rg");
    push_str(out, " ");
    push_color_op(out, sc, "RG");
    push_str(out, " ");
    push_milli(out, sw);
    push_str(out, " w\n");
    push_bytes(out, path.as_slice());
    push_str(out, " b\n");
    assert(out@ =~= start + painted_bytes(path@, Some(f), Some((sw, sc))));
}

/// Appends a filled outline.
fn push_fill(out: &mut Vec<u8>, path: &Vec<u8>, f: Rgb)
    ensures
        final(out)@ == old(out)@ + painted_bytes(path@, Some(f), None),
{
    let ghost start = out@;
    push_color_op(out, f, "rg");
    push_str(out, "\n");
    push_bytes(out, path.as_slice());
    push_str(out, " f\n");
    assert(out@ =~= start + painted_bytes(path@, Some(f), None));
}

/// Appends a stroked outline.
fn push_stroke(out: &mut Vec<u8>, path: &Vec<u8>, sw: i64, sc: Rgb)
    ensures
        final(out)@ == old(out)@ + painted_bytes(path@, None, Some((sw, sc))),
{
    let ghost start = out@;
    push_color_op(out, sc, "RG");
    push_str(out, " ");
    push_milli(out, sw);
    push_str(out, " w\n");
    push_bytes(out, path.as_slice());
    push_str(out, " S\n");
    assert(out@ =~= start + painted_bytes(path@, None, Some((sw, sc))));
}

/// Appends the dash pattern line, when there is one.
fn push_dash_on(out: &mut Vec<u8>, dash: Option<(i64, i64)>)
    ensures
        final(out)@ == old(out)@ + dash_on_bytes(dash),
{
    let ghost start = out@;
    match dash {
        Some((d, g)) => {
            push_str(out, "[");
            push_milli(out, d);
            push_str(out, " ");
            push_milli(out, g);
            push_str(out, "] 0 d\n");
        },
        None => {},
    }
    assert(out@ =~= start + dash_on_bytes(dash));
}

/// Appends the return to solid lines after a dash pattern.
fn push_dash_off(out: &mut Vec<u8>, dash: Option<(i64, i64)>)
    ensures
        final(out)@ == old(out)@ + dash_off_bytes(dash),
{
    if dash.is_some() {
        push_str(out, "[] 0 d\n");
    }
    assert(out@ =~= old(out)@ + dash_off_bytes(dash));
}

/// An exact coordinate rounded to a thousandth of a point.
fn milli_of(v: i128) -> (m: i64)
    requires
        -100_000_000_000_000_000_000_000 <= v <= 100_000_000_000_000_000_000_000,
    ensures
        m == fine_to_milli(v as int),
{
    if v >= 0 {
        ((v + 10_000_000) / 20_000_000) as i64
    } else {
        -(((-v + 10_000_000) / 20_000_000) as i64)
    }
}

/// The rounded rectangle's outline.
fn rounded_path_bytes(x: i64, y: i64, w: i64, h: i64, rh: i64) -> (out: Vec<u8>)
    requires
        coordinate(x),
        coordinate(y),
        coordinate(w),
        coordinate(h),
        -2_000_000_000_000_000 <= rh <= 2_000_000_000_000_000,
    ensures
        out@ == rounded_path(x as int, y as int, w as int, h as int, rh as int),
{
    let xs = x as i128 * 20_000_000;
    let ys = y as i128 * 20_000_000;
    let ws = w as i128 * 20_000_000;
    let hs = h as i128 * 20_000_000;
    let r = rh as i128 * 10_000_000;
    let k = rh as i128 * 5_522_848;
    let mut out: Vec<u8> = Vec::new();
    push_pair(&mut out, milli_of(xs + r), milli_of(ys));
    push_str(&mut out, " m\n");
    push_pair(&mut out, milli_of(xs + ws - r), milli_of(ys));
    push_str(&mut out, " l\n");
    push_curve(
        &mut out,
        milli_of(xs + ws - r + k),
        milli_of(ys),
        milli_of(xs + ws),
        milli_of(ys + r - k),
        milli_of(xs + ws),
        milli_of(ys + r),
    );
    push_pair(&mut out, milli_of(xs + ws), milli_of(ys + hs - r));
    push_str(&mut out, " l\n");
    push_curve(
        &mut out,
        milli_of(xs + ws),
        milli_of(ys + hs - r + k),
        milli_of(xs + ws - r + k),
        milli_of(ys + hs),
        milli_of(xs + ws - r),
        milli_of(ys + hs),
    );
    push_pair(&mut out, milli_of(xs + r), milli_of(ys + hs));
    push_str(&mut out, " l\n");
    push_curve(
        &mut out,
        milli_of(xs + r - k),
        milli_of(ys + hs),
        milli_of(xs),
        milli_of(ys + hs - r + k),
        milli_of(xs),
        milli_of(ys + hs - r),
    );
    push_pair(&mut out, milli_of(xs), milli_of(ys + r));
    push_str(&mut out, " l\n");
    push_pair(&mut out, milli_of(xs), milli_of(ys + r - k));
    push_str(&mut out, " ");
    push_pair(&mut out, milli_of(xs + r - k), milli_of(ys));
    push_str(&mut out, " ");
    push_pair(&mut out, milli_of(xs + r), milli_of(ys));
    push_str(&mut out, " c\nh");
    assert(out@ =~= rounded_path(x as int, y as int, w as int, h as int, rh as int)) by {
        reveal(rounded_path);
    }
    out
}

/// Builds one content stream.
pub struct ContentBuilder {
    buf: Vec<u8>,
}

impl View for ContentBuilder {
    type V = Seq<u8>;

    closed spec fn view(&self) -> Seq<u8> {
        self.buf@
    }
}

/// Appends the operand text of a channel.
fn push_component(out: &mut Vec<u8>, c: u8)
    ensures
        final(out)@ == old(out)@ + component_bytes(c),
{
    let m = ((2000 * (c as u32) + 255) / 510) as i64;
    push_milli(out, m);
}

/// Appends a color-setting operator.
fn push_color_op(out: &mut Vec<u8>, color: Rgb, op: &str)
    ensures
        final(out)@ == old(out)@ + color_op_bytes(color, op.spec_bytes()),
{
    let ghost start = out@;
    push_component(out, color.0);
    push_str(out, " ");
    push_component(out, color.1);
    push_str(out, " ");
    push_component(out, color.2);
    push_str(out, " ");
    push_str(out, op);
    assert(out@ =~= start + color_op_bytes(color, op.spec_bytes()));
}

/// Appends the operands of `re`.
fn push_rect_operands(out: &mut Vec<u8>, x: i64, y: i64, w: i64, h: i64)
    ensures
        final(out)@ == old(out)@ + rect_operands(x, y, w, h),
{
    let ghost start = out@;
    push_milli(out, x);
    push_str(out, " ");
    push_milli(out, y);
    push_str(out, " ");
    push_milli(out, w);
    push_str(out, " ");
    push_milli(out, h);
    assert(out@ =~= start + rect_operands(x, y, w, h));
}

/// Appends `bytes` as a hex string body.
fn push_hex_string(out: &mut Vec<u8>, bytes: &[u8])
    ensures
        final(out)@ == old(out)@ + hex_string(bytes@),
{
    let ghost start = out@;
    let mut i: usize = 0;
    while i < bytes.len()
        invariant
            i <= bytes@.len(),
            out@ == start + hex_string(bytes@.take(i as int)),
        decreases bytes@.len() - i,
    {
        assert(bytes@.take(i + 1).drop_last() =~= bytes@.take(i as int));
        push_hex(out, bytes[i] as u64, 2, true);
        i = i + 1;
        assert(out@ =~= start + hex_string(bytes@.take(i as int)));
    }
    assert(bytes@.take(bytes@.len() as int) =~= bytes@);
}

/// Appends the text-showing block.
fn push_text_block(out: &mut Vec<u8>, font: &str, size: i64, color: Rgb, tx: i64, ty: i64, encoded: &[u8])
    ensures
        final(out)@ == old(out)@ + text_block_bytes(font.spec_bytes(), size, color, tx, ty, encoded@),
{
    let ghost start = out@;
    push_str(out, "BT /");
    push_str(out, font);
    push_str(out, " ");
    push_milli(out, size);
    push_str(out, " Tf ");
    push_color_op(out, color, "rg");
    push_str(out, " ");
    push_milli(out, tx);
    push_str(out, " ");
    push_milli(out, ty);
    push_str(out, " Td <");
    push_hex_string(out, encoded);
    push_str(out, "> Tj ET");
    assert(out@ =~= start + text_block_bytes(font.spec_bytes(), size, color, tx, ty, encoded@));
}

impl ContentBuilder {
    /// An empty content stream.
    pub fn new() -> (c: Self)
        ensures
            c@ == Seq::<u8>::empty(),
    {
        ContentBuilder { buf: Vec::new() }
    }

    /// Appends one operator line: `s`, then a newline.
    pub fn op(&mut self, s: &str)
        ensures
            final(self)@ == old(self)@ + s.spec_bytes() + "\n".spec_bytes(),
    {
        push_str(&mut self.buf, s);
        push_str(&mut self.buf, "\n");
        assert(self.buf@ =~= old(self)@ + s.spec_bytes() + "\n".spec_bytes());
    }

    /// `q`: pushes the graphics state (opens a clip scope).
    pub fn save(&mut self)
        ensures
            final(self)@ == old(self)@ + "q".spec_bytes() + "\n".spec_bytes(),
    {
        self.op("q");
    }

    /// `Q`: pops the graphics state (closes the matching clip scope).
    pub fn restore(&mut self)
        ensures
            final(self)@ == old(self)@ + "Q".spec_bytes() + "\n".spec_bytes(),
    {
        self.op("Q");
    }

    /// Intersects the clip path with a rectangle: `x y w h re W n`.
    pub fn clip_rect(&mut self, x: i64, y: i64, w: i64, h: i64)
        ensures
            final(self)@ == old(self)@ + rect_operands(x, y, w, h) + " re W n\n".spec_bytes(),
    {
        push_rect_operands(&mut self.buf, x, y, w, h);
        push_str(&mut self.buf, " re W n\n");
        assert(self.buf@ =~= old(self)@ + rect_operands(x, y, w, h) + " re W n\n".spec_bytes());
    }

    /// Fills a rectangle: `<color> rg x y w h re f`.
    pub fn fill_rect(&mut self, x: i64, y: i64, w: i64, h: i64, color: Rgb)
        ensures
            final(self)@ == old(self)@ + color_op_bytes(color, "rg".spec_bytes()) + " ".spec_bytes() + rect_operands(
                x,
                y,
                w,
                h,
            ) + " re f\n".spec_bytes(),
    {
        push_color_op(&mut self.buf, color, "rg");
        push_str(&mut self.buf, " ");
        push_rect_operands(&mut self.buf, x, y, w, h);
        push_str(&mut self.buf, " re f\n");
        assert(self.buf@ =~= old(self)@ + color_op_bytes(color, "rg".spec_bytes()) + " ".spec_bytes() + rect_operands(
            x,
            y,
            w,
            h,
        ) + " re f\n".spec_bytes());
    }

    /// Strokes a rectangle: `<color> RG lw w x y w h re S`.
    pub fn stroke_rect(&mut self, x: i64, y: i64, w: i64, h: i64, line_width: i64, color: Rgb)
        ensures
            final(self)@ == old(self)@ + color_op_bytes(color, "RG".spec_bytes()) + " ".spec_bytes() + milli_bytes(
                line_width as int,
            ) + " w ".spec_bytes() + rect_operands(x, y, w, h) + " re S\n".spec_bytes(),
    {
        push_color_op(&mut self.buf, color, "RG");
        push_str(&mut self.buf, " ");
        push_milli(&mut self.buf, line_width);
        push_str(&mut self.buf, " w ");
        push_rect_operands(&mut self.buf, x, y, w, h);
        push_str(&mut self.buf, " re S\n");
        assert(self.buf@ =~= old(self)@ + color_op_bytes(color, "RG".spec_bytes()) + " ".spec_bytes() + milli_bytes(
            line_width as int,
        ) + " w ".spec_bytes() + rect_operands(x, y, w, h) + " re S\n".spec_bytes());
    }

    /// Sets a dash pattern: `[dash gap] 0 d`.
    pub fn set_dash(&mut self, dash: i64, gap: i64)
        ensures
            final(self)@ == old(self)@ + "[".spec_bytes() + milli_bytes(dash as int) + " ".spec_bytes() + milli_bytes(
                gap as int,
            ) + "] 0 d\n".spec_bytes(),
    {
        push_str(&mut self.buf, "[");
        push_milli(&mut self.buf, dash);
        push_str(&mut self.buf, " ");
        push_milli(&mut self.buf, gap);
        push_str(&mut self.buf, "] 0 d\n");
        assert(self.buf@ =~= old(self)@ + "[".spec_bytes() + milli_bytes(dash as int) + " ".spec_bytes() + milli_bytes(
            gap as int,
        ) + "] 0 d\n".spec_bytes());
    }

    /// Back to solid lines: `[] 0 d`.
    pub fn reset_dash(&mut self)
        ensures
            final(self)@ == old(self)@ + "[] 0 d".spec_bytes() + "\n".spec_bytes(),
    {
        self.op("[] 0 d");
    }

    /// A stroked line: `<color> RG lw w x1 y1 m x2 y2 l S`.
    pub fn line(&mut self, x1: i64, y1: i64, x2: i64, y2: i64, line_width: i64, color: Rgb)
        ensures
            final(self)@ == old(self)@ + color_op_bytes(color, "RG".spec_bytes()) + " ".spec_bytes() + milli_bytes(
                line_width as int,
            ) + " w ".spec_bytes() + milli_bytes(x1 as int) + " ".spec_bytes() + milli_bytes(y1 as int)
                + " m ".spec_bytes() + milli_bytes(x2 as int) + " ".spec_bytes() + milli_bytes(y2 as int)
                + " l S\n".spec_bytes(),
    {
        push_color_op(&mut self.buf, color, "RG");
        push_str(&mut self.buf, " ");
        push_milli(&mut self.buf, line_width);
        push_str(&mut self.buf, " w ");
        push_milli(&mut self.buf, x1);
        push_str(&mut self.buf, " ");
        push_milli(&mut self.buf, y1);
        push_str(&mut self.buf, " m ");
        push_milli(&mut self.buf, x2);
        push_str(&mut self.buf, " ");
        push_milli(&mut self.buf, y2);
        push_str(&mut self.buf, " l S\n");
        assert(self.buf@ =~= old(self)@ + color_op_bytes(color, "RG".spec_bytes()) + " ".spec_bytes() + milli_bytes(
            line_width as int,
        ) + " w ".spec_bytes() + milli_bytes(x1 as int) + " ".spec_bytes() + milli_bytes(y1 as int)
            + " m ".spec_bytes() + milli_bytes(x2 as int) + " ".spec_bytes() + milli_bytes(y2 as int)
            + " l S\n".spec_bytes());
    }

    /// One text-showing run: `BT /F1 12 Tf 0 0 0 rg 100 700 Td <0001 0002>
    /// Tj ET`. `encoded` are the already-encoded character codes (for
    /// Identity-H, big-endian two-byte CIDs), written as a hex string.
    pub fn text(&mut self, font_resource: &str, size: i64, x: i64, y: i64, color: Rgb, encoded: &[u8])
        ensures
            final(self)@ == old(self)@ + text_block_bytes(font_resource.spec_bytes(), size, color, x, y, encoded@)
                + "\n".spec_bytes(),
    {
        push_text_block(&mut self.buf, font_resource, size, color, x, y, encoded);
        push_str(&mut self.buf, "\n");
        assert(self.buf@ =~= old(self)@ + text_block_bytes(font_resource.spec_bytes(), size, color, x, y, encoded@)
            + "\n".spec_bytes());
    }

    /// One text run in a rotated frame: `q cos sin -sin cos cx cy cm`, the
    /// text block shifted left by `half_width` so it is centered on the
    /// rotation center, then `Q`.
    pub fn text_rotated(
        &mut self,
        font_resource: &str,
        size: i64,
        cos: i64,
        sin: i64,
        cx: i64,
        cy: i64,
        half_width: i64,
        color: Rgb,
        encoded: &[u8],
    )
        requires
            negatable(sin),
            negatable(half_width),
        ensures
            final(self)@ == old(self)@ + "q ".spec_bytes() + milli_bytes(cos as int) + " ".spec_bytes() + milli_bytes(
                sin as int,
            ) + " ".spec_bytes() + milli_bytes(-sin) + " ".spec_bytes() + milli_bytes(cos as int) + " ".spec_bytes()
                + milli_bytes(cx as int) + " ".spec_bytes() + milli_bytes(cy as int) + " cm ".spec_bytes()
                + text_block_bytes(font_resource.spec_bytes(), size, color, (-half_width) as i64, 0, encoded@)
                + " Q\n".spec_bytes(),
    {
        push_str(&mut self.buf, "q ");
        push_milli(&mut self.buf, cos);
        push_str(&mut self.buf, " ");
        push_milli(&mut self.buf, sin);
        push_str(&mut self.buf, " ");
        push_milli(&mut self.buf, -sin);
        push_str(&mut self.buf, " ");
        push_milli(&mut self.buf, cos);
        push_str(&mut self.buf, " ");
        push_milli(&mut self.buf, cx);
        push_str(&mut self.buf, " ");
        push_milli(&mut self.buf, cy);
        push_str(&mut self.buf, " cm ");
        push_text_block(&mut self.buf, font_resource, size, color, -half_width, 0, encoded);
        push_str(&mut self.buf, " Q\n");
        assert(self.buf@ =~= old(self)@ + "q ".spec_bytes() + milli_bytes(cos as int) + " ".spec_bytes() + milli_bytes(
            sin as int,
        ) + " ".spec_bytes() + milli_bytes(-sin) + " ".spec_bytes() + milli_bytes(cos as int) + " ".spec_bytes()
            + milli_bytes(cx as int) + " ".spec_bytes() + milli_bytes(cy as int) + " cm ".spec_bytes()
            + text_block_bytes(font_resource.spec_bytes(), size, color, (-half_width) as i64, 0, encoded@)
            + " Q\n".spec_bytes());
    }

    /// Draws an image XObject scaled to `w` by `h` at `(x, y)`:
    /// `q w 0 0 h x y cm /Im1 Do Q`.
    pub fn draw_image(&mut self, image_resource: &str, x: i64, y: i64, w: i64, h: i64)
        ensures
            final(self)@ == old(self)@ + "q ".spec_bytes() + milli_bytes(w as int) + " 0 0 ".spec_bytes()
                + milli_bytes(h as int) + " ".spec_bytes() + milli_bytes(x as int) + " ".spec_bytes() + milli_bytes(
                y as int,
            ) + " cm /".spec_bytes() + image_resource.spec_bytes() + " Do Q\n".spec_bytes(),
    {
        push_str(&mut self.buf, "q ");
        push_milli(&mut self.buf, w);
        push_str(&mut self.buf, " 0 0 ");
        push_milli(&mut self.buf, h);
        push_str(&mut self.buf, " ");
        push_milli(&mut self.buf, x);
        push_str(&mut self.buf, " ");
        push_milli(&mut self.buf, y);
        push_str(&mut self.buf, " cm /");
        push_str(&mut self.buf, image_resource);
        push_str(&mut self.buf, " Do Q\n");
        assert(self.buf@ =~= old(self)@ + "q ".spec_bytes() + milli_bytes(w as int) + " 0 0 ".spec_bytes()
            + milli_bytes(h as int) + " ".spec_bytes() + milli_bytes(x as int) + " ".spec_bytes() + milli_bytes(
            y as int,
        ) + " cm /".spec_bytes() + image_resource.spec_bytes() + " Do Q\n".spec_bytes());
    }

    /// A rectangle with rounded corners: the corner radius is at most half
    /// the width and height, each corner a Bézier quarter circle; filled,
    /// stroked or both, with an optional dash pattern reset afterwards.
    pub fn draw_rounded_rect(
        &mut self,
        x: i64,
        y: i64,
        w: i64,
        h: i64,
        radius: i64,
        fill: Option<Rgb>,
        stroke: Option<(i64, Rgb)>,
        dash: Option<(i64, i64)>,
    )
        requires
            coordinate(x),
            coordinate(y),
            coordinate(w),
            coordinate(h),
            coordinate(radius),
        ensures
            final(self)@ == old(self)@ + rounded_rect_bytes(x, y, w, h, radius, fill, stroke, dash),
    {
        let a = if 2 * radius < w {
            2 * radius
        } else {
            w
        };
        let rh = if a < h {
            a
        } else {
            h
        };
        let path = rounded_path_bytes(x, y, w, h, rh);
        let ghost s0 = self.buf@;
        push_dash_on(&mut self.buf, dash);
        let ghost s1 = self.buf@;
        push_painted(&mut self.buf, &path, fill, stroke);
        let ghost s2 = self.buf@;
        push_dash_off(&mut self.buf, dash);
        assert(self.buf@ == s2 + dash_off_bytes(dash));
        assert(s2 == s1 + painted_bytes(path@, fill, stroke));
        assert(s1 == s0 + dash_on_bytes(dash));
        assert(self.buf@ =~= old(self)@ + rounded_rect_bytes(x, y, w, h, radius, fill, stroke, dash));
    }

    /// The stream's bytes.
    pub fn into_bytes(self) -> (b: Vec<u8>)
        ensures
            b@ == self@,
    {
        self.buf
    }
}

} // verus!
