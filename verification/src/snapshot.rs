//! Visual regression snapshots: decoding rasterized pages to grayscale and
//! comparing them pixel by pixel against a reference. Rendering, reading
//! and writing the image files happen outside this module.

use vstd::prelude::*;
use crate::text::{chars_of, dec_chars, push_all, push_dec, string_from_chars};

verus! {

/// Why a snapshot check failed.
#[derive(Debug)]
pub enum SnapshotError {
    /// Rendering the PDF (or preparing to) failed.
    Rasterize(String),
    /// An image could not be decoded or the two pages cannot be compared.
    Decode(String),
    /// There is no reference image at this path.
    NoReference(String),
    /// The reference has a different number of pages.
    PageCountMismatch { expected: usize, actual: usize },
    /// A page differs beyond the tolerance.
    Mismatch { page: usize, reference_path: String, diff_path: String, differing_pixels: usize, total_pixels: usize },
}

/// The message of a snapshot error.
pub open spec fn snapshot_message(e: SnapshotError) -> Seq<char> {
    match e {
        SnapshotError::Rasterize(m) => "rasterizing the PDF failed: "@ + m@,
        SnapshotError::Decode(m) => "decoding a snapshot PNG failed: "@ + m@,
        SnapshotError::NoReference(p) => "no reference snapshot at "@ + p@
            + " \u{2014} run once with UPDATE_SNAPSHOTS=1 to create it"@,
        SnapshotError::PageCountMismatch { expected, actual } => "expected "@ + dec_chars(expected as nat)
            + " page(s) (reference), rendered "@ + dec_chars(actual as nat),
        SnapshotError::Mismatch { page, reference_path, diff_path, differing_pixels, total_pixels } => "page "@
            + dec_chars(page as nat) + " doesn't match "@ + reference_path@ + " \u{2014} "@ + dec_chars(
            differing_pixels as nat,
        ) + "/"@ + dec_chars(total_pixels as nat) + " pixels differ beyond tolerance; diff image written to "@
            + diff_path@,
    }
}

impl SnapshotError {
    /// The error's message.
    pub fn message(&self) -> (s: String)
        ensures
            s@ == snapshot_message(*self),
    {
        let mut v: Vec<char> = Vec::new();
        match self {
            SnapshotError::Rasterize(m) => {
                push_all(&mut v, &chars_of("rasterizing the PDF failed: "));
                push_all(&mut v, &chars_of(m.as_str()));
            },
            SnapshotError::Decode(m) => {
                push_all(&mut v, &chars_of("decoding a snapshot PNG failed: "));
                push_all(&mut v, &chars_of(m.as_str()));
            },
            SnapshotError::NoReference(p) => {
                push_all(&mut v, &chars_of("no reference snapshot at "));
                push_all(&mut v, &chars_of(p.as_str()));
                push_all(&mut v, &chars_of(" \u{2014} run once with UPDATE_SNAPSHOTS=1 to create it"));
            },
            SnapshotError::PageCountMismatch { expected, actual } => {
                push_all(&mut v, &chars_of("expected "));
                push_dec(&mut v, *expected as u64);
                push_all(&mut v, &chars_of(" page(s) (reference), rendered "));
                push_dec(&mut v, *actual as u64);
            },
            SnapshotError::Mismatch { page, reference_path, diff_path, differing_pixels, total_pixels } => {
                push_all(&mut v, &chars_of("page "));
                push_dec(&mut v, *page as u64);
                push_all(&mut v, &chars_of(" doesn't match "));
                push_all(&mut v, &chars_of(reference_path.as_str()));
                push_all(&mut v, &chars_of(" \u{2014} "));
                push_dec(&mut v, *differing_pixels as u64);
                push_all(&mut v, &chars_of("/"));
                push_dec(&mut v, *total_pixels as u64);
                push_all(&mut v, &chars_of(" pixels differ beyond tolerance; diff image written to "));
                push_all(&mut v, &chars_of(diff_path.as_str()));
            },
        }
        string_from_chars(v)
    }
}

/// What the `png` crate decodes from `bytes`: the first frame's width,
/// height, bit depth, color type (as its PNG code) and samples, or the
/// decoder's error text (`None` when it reports no output size).
pub uninterp spec fn png_first_frame(bytes: Seq<u8>) -> Result<(u32, u32, u8, u8, Seq<u8>), Option<Seq<char>>>;

/// `png::Decoder::new(Cursor::new(bytes))`, `read_info`,
/// `output_buffer_size`, `next_frame` into a buffer of that size, cut to
/// the frame's `buffer_size`. Only the result is named.
#[verifier::external_body]
fn decode_png(bytes: &[u8]) -> (r: Result<(u32, u32, u8, u8, Vec<u8>), Option<String>>)
    ensures
        match r {
            Ok((w, h, d, c, px)) => png_first_frame(bytes@) == Ok::<(u32, u32, u8, u8, Seq<u8>), Option<Seq<char>>>(
                (w, h, d, c, px@),
            ),
            Err(e) => png_first_frame(bytes@) == Err::<(u32, u32, u8, u8, Seq<u8>), Option<Seq<char>>>(
                match e {
                    Some(m) => Some(m@),
                    None => None,
                },
            ),
        },
{
    let mut reader = match png::Decoder::new(std::io::Cursor::new(bytes)).read_info() {
        Ok(r) => r,
        Err(e) => return Err(Some(e.to_string())),
    };
    let Some(size) = reader.output_buffer_size() else { return Err(None) };
    let mut buf = vec![0u8; size];
    let info = match reader.next_frame(&mut buf) {
        Ok(i) => i,
        Err(e) => return Err(Some(e.to_string())),
    };
    buf.truncate(info.buffer_size());
    Ok((info.width, info.height, info.bit_depth as u8, info.color_type as u8, buf))
}

/// A grayscale image, one byte per pixel.
pub struct GrayImage {
    pub width: u32,
    pub height: u32,
    pub pixels: Vec<u8>,
}

/// The first sample of each whole group of `n`.
pub open spec fn first_samples(buf: Seq<u8>, n: nat) -> Seq<u8>
    recommends
        n > 0,
{
    Seq::new(buf.len() / n, |i: int| buf[i * n])
}

/// A bit depth's name as `png` prints it.
pub open spec fn bit_depth_name(d: u8) -> Seq<char> {
    if d == 1 {
        "One"@
    } else if d == 2 {
        "Two"@
    } else if d == 4 {
        "Four"@
    } else if d == 16 {
        "Sixteen"@
    } else {
        "Eight"@
    }
}

/// A PNG decoded and reduced to one gray byte per pixel: gray as it is,
/// and of gray+alpha, RGB and RGBA the first sample of each pixel; only
/// 8-bit images of those color types are accepted.
pub open spec fn gray_of(bytes: Seq<u8>) -> Result<(u32, u32, Seq<u8>), Seq<char>> {
    match png_first_frame(bytes) {
        Err(Some(m)) => Err(m),
        Err(None) => Err("empty image"@),
        Ok((w, h, d, c, buf)) => if d != 8 {
            Err("expected an 8-bit PNG, got "@ + bit_depth_name(d))
        } else if c == 0 {
            Ok((w, h, buf))
        } else if c == 4 {
            Ok((w, h, first_samples(buf, 2)))
        } else if c == 2 {
            Ok((w, h, first_samples(buf, 3)))
        } else if c == 6 {
            Ok((w, h, first_samples(buf, 4)))
        } else {
            Err("unsupported PNG color type Indexed"@)
        },
    }
}

/// The first sample of each whole group of `n`.
fn take_first_samples(buf: &Vec<u8>, n: usize) -> (r: Vec<u8>)
    requires
        n > 0,
    ensures
        r@ == first_samples(buf@, n as nat),
{
    let count = buf.len() / n;
    let mut out: Vec<u8> = Vec::new();
    let mut i: usize = 0;
    while i < count
        invariant
            count == buf@.len() / (n as nat),
            n > 0,
            i <= count,
            out@.len() == i,
            forall|j: int| 0 <= j < i ==> out@[j] == buf@[j * n],
        decreases count - i,
    {
        proof {
            assert(i * n + n <= count * n) by (nonlinear_arith)
                requires
                    i < count,
            ;
            assert(count * n <= buf@.len()) by (nonlinear_arith)
                requires
                    count == buf@.len() / (n as nat),
                    n > 0,
            ;
            assert(buf@.len() == buf.len());
        }
        out.push(buf[i * n]);
        i = i + 1;
    }
    assert(out@ =~= first_samples(buf@, n as nat));
    out
}

/// Decodes an 8-bit PNG and reduces it to one gray byte per pixel.
pub fn decode_to_gray(bytes: &[u8]) -> (r: Result<GrayImage, SnapshotError>)
    ensures
        match gray_of(bytes@) {
            Ok((w, h, px)) => r matches Ok(g) && g.width == w && g.height == h && g.pixels@ == px,
            Err(m) => r matches Err(SnapshotError::Decode(e)) && e@ == m,
        },
{
    match decode_png(bytes) {
        Err(Some(m)) => Err(SnapshotError::Decode(m)),
        Err(None) => Err(SnapshotError::Decode(string_from_chars(chars_of("empty image")))),
        Ok((w, h, d, c, buf)) => {
            if d != 8 {
                let mut v = chars_of("expected an 8-bit PNG, got ");
                let name = if d == 1 {
                    "One"
                } else if d == 2 {
                    "Two"
                } else if d == 4 {
                    "Four"
                } else if d == 16 {
                    "Sixteen"
                } else {
                    "Eight"
                };
                push_all(&mut v, &chars_of(name));
                Err(SnapshotError::Decode(string_from_chars(v)))
            } else if c == 0 {
                Ok(GrayImage { width: w, height: h, pixels: buf })
            } else if c == 4 {
                Ok(GrayImage { width: w, height: h, pixels: take_first_samples(&buf, 2) })
            } else if c == 2 {
                Ok(GrayImage { width: w, height: h, pixels: take_first_samples(&buf, 3) })
            } else if c == 6 {
                Ok(GrayImage { width: w, height: h, pixels: take_first_samples(&buf, 4) })
            } else {
                Err(SnapshotError::Decode(string_from_chars(chars_of("unsupported PNG color type Indexed"))))
            }
        },
    }
}

/// The difference image of two pixel rows, over the shorter of them: 255
/// where the pixels differ by more than `tolerance`, else 0.
pub open spec fn diff_mask(a: Seq<u8>, b: Seq<u8>, tolerance: u8) -> Seq<u8> {
    Seq::new(
        if a.len() < b.len() {
            a.len()
        } else {
            b.len()
        },
        |i: int|
            if (if a[i] >= b[i] {
                a[i] - b[i]
            } else {
                b[i] - a[i]
            }) > tolerance {
                255u8
            } else {
                0u8
            },
    )
}

/// How many entries of a difference image are marked.
pub open spec fn marked(mask: Seq<u8>) -> nat
    decreases mask.len(),
{
    if mask.len() == 0 {
        0
    } else {
        marked(mask.drop_last()) + if mask.last() == 255 {
            1nat
        } else {
            0nat
        }
    }
}

/// The outcome of comparing two decoded pages of the same size.
pub enum PageComparison {
    /// Every pixel is within the tolerance.
    Same,
    /// Some pixels differ: how many, out of the reference's pixel count,
    /// and the difference image to write next to the reference.
    Differs { differing: usize, total: usize, width: u32, height: u32, diff: Vec<u8> },
}

/// Whether `r` reports the comparison of a reference's pixels with a
/// rendering's: `Same` when nothing is marked, else the marked count, the
/// reference's pixel count and size, and the difference image.
pub open spec fn compares_as(r: PageComparison, ref_px: Seq<u8>, ren_px: Seq<u8>, tolerance: u8, w: u32, h: u32) -> bool {
    let d = diff_mask(ref_px, ren_px, tolerance);
    if marked(d) == 0 {
        r is Same
    } else {
        r matches PageComparison::Differs { differing, total, width, height, diff } && differing == marked(d) && total
            == ref_px.len() && width == w && height == h && diff@ == d
    }
}

/// Compares two gray images pixel by pixel.
pub fn compare_pixels(reference: &GrayImage, rendered: &GrayImage, tolerance: u8) -> (r: PageComparison)
    ensures
        compares_as(r, reference.pixels@, rendered.pixels@, tolerance, reference.width, reference.height),
{
    let a = &reference.pixels;
    let b = &rendered.pixels;
    let n = if a.len() < b.len() {
        a.len()
    } else {
        b.len()
    };
    let ghost full = diff_mask(a@, b@, tolerance);
    let mut diff: Vec<u8> = Vec::new();
    let mut differing: usize = 0;
    let mut i: usize = 0;
    while i < n
        invariant
            n == full.len(),
            n <= a@.len(),
            n <= b@.len(),
            full == diff_mask(a@, b@, tolerance),
            i <= n,
            diff@ == full.take(i as int),
            differing == marked(diff@),
            differing <= i,
        decreases n - i,
    {
        let x = a[i];
        let y = b[i];
        let delta = if x >= y {
            x - y
        } else {
            y - x
        };
        let m: u8 = if delta > tolerance {
            255
        } else {
            0
        };
        diff.push(m);
        assert(diff@.drop_last() =~= full.take(i as int));
        if m == 255 {
            differing = differing + 1;
        }
        i = i + 1;
        assert(diff@ =~= full.take(i as int));
    }
    assert(full.take(n as int) =~= full);
    if differing == 0 {
        PageComparison::Same
    } else {
        PageComparison::Differs {
            differing,
            total: a.len(),
            width: reference.width,
            height: reference.height,
            diff,
        }
    }
}

/// The message for pages of different sizes.
pub open spec fn size_mismatch_message(page: usize, rw: u32, rh: u32, vw: u32, vh: u32) -> Seq<char> {
    "page "@ + dec_chars(page as nat) + ": reference is "@ + dec_chars(rw as nat) + "x"@ + dec_chars(rh as nat)
        + ", rendered is "@ + dec_chars(vw as nat) + "x"@ + dec_chars(vh as nat) + " \u{2014} DPI mismatch?"@
}

/// Decodes a reference page and a rendered page and compares them: a page
/// that does not decode, or whose size differs, is a `Decode` error.
pub fn compare_page(page: usize, reference_png: &[u8], rendered_png: &[u8], tolerance: u8) -> (r: Result<
    PageComparison,
    SnapshotError,
>)
    ensures
        match (gray_of(reference_png@), gray_of(rendered_png@)) {
            (Err(m), _) => r matches Err(SnapshotError::Decode(e)) && e@ == m,
            (Ok(_), Err(m)) => r matches Err(SnapshotError::Decode(e)) && e@ == m,
            (Ok((rw, rh, rp)), Ok((vw, vh, vp))) => if rw != vw || rh != vh {
                r matches Err(SnapshotError::Decode(e)) && e@ == size_mismatch_message(page, rw, rh, vw, vh)
            } else {
                r matches Ok(c) && compares_as(c, rp, vp, tolerance, rw, rh)
            },
        },
{
    let reference = match decode_to_gray(reference_png) {
        Ok(g) => g,
        Err(e) => {
            return Err(e);
        },
    };
    let rendered = match decode_to_gray(rendered_png) {
        Ok(g) => g,
        Err(e) => {
            return Err(e);
        },
    };
    if reference.width != rendered.width || reference.height != rendered.height {
        let mut v = chars_of("page ");
        push_dec(&mut v, page as u64);
        push_all(&mut v, &chars_of(": reference is "));
        push_dec(&mut v, reference.width as u64);
        push_all(&mut v, &chars_of("x"));
        push_dec(&mut v, reference.height as u64);
        push_all(&mut v, &chars_of(", rendered is "));
        push_dec(&mut v, rendered.width as u64);
        push_all(&mut v, &chars_of("x"));
        push_dec(&mut v, rendered.height as u64);
        push_all(&mut v, &chars_of(" \u{2014} DPI mismatch?"));
        assert(v@ =~= size_mismatch_message(page, reference.width, reference.height, rendered.width, rendered.height));
        return Err(SnapshotError::Decode(string_from_chars(v)));
    }
    Ok(compare_pixels(&reference, &rendered, tolerance))
}

/// The file name of a reference page: `<name>-<page>.png`.
pub fn reference_file_name(name: &str, page: usize) -> (s: String)
    ensures
        s@ == name@ + "-"@ + dec_chars(page as nat) + ".png"@,
{
    let mut v = chars_of(name);
    push_all(&mut v, &chars_of("-"));
    push_dec(&mut v, page as u64);
    push_all(&mut v, &chars_of(".png"));
    string_from_chars(v)
}

} // verus!
