//! Still screenshots for region selection, as RGBA pixels.

use vstd::prelude::*;

verus! {

pub struct Screenshot {
    pub width: u32,
    pub height: u32,
    pub rgba: Vec<u8>,
}

#[derive(Debug, Clone, Copy, PartialEq, Eq, Structural)]
pub enum ScreenshotError {
    /// No screenshot backend exists for this platform.
    Unsupported,
}

/// Takes a screenshot of the main display.  Grabbing the display needs a
/// platform backend; without one the result is `Unsupported`.
pub fn take_screenshot() -> (r: Result<Screenshot, ScreenshotError>)
    ensures
        r matches Err(e) && e == ScreenshotError::Unsupported,
{
    Err(ScreenshotError::Unsupported)
}

/// Byte `k` of the RGBA image converted from BGRA rows of `bytes_per_row`
/// bytes: channels red, green, blue, alpha taken from BGRA offsets 2, 1, 0,
/// 3 of the pixel.
pub open spec fn rgba_byte(bgra: Seq<u8>, width: int, bytes_per_row: int, k: int) -> u8 {
    let p = k / 4;
    let off = (p / width) * bytes_per_row + (p % width) * 4;
    let c = k % 4;
    if c == 0 {
        bgra[off + 2]
    } else if c == 1 {
        bgra[off + 1]
    } else if c == 2 {
        bgra[off]
    } else {
        bgra[off + 3]
    }
}

/// Converts `height` rows of `width` BGRA pixels, each row starting
/// `bytes_per_row` bytes after the previous one, into packed RGBA.
pub fn bgra_to_rgba(bgra: &[u8], width: u32, height: u32, bytes_per_row: usize) -> (rgba: Vec<u8>)
    requires
        width * height * 4 <= u32::MAX,
        height > 0 ==> (height - 1) * bytes_per_row <= usize::MAX,
        width > 0 && height > 0 ==> (height - 1) * bytes_per_row + width * 4 <= bgra@.len(),
    ensures
        rgba@.len() == width * height * 4,
        forall|k: int|
            0 <= k < rgba@.len() ==> #[trigger] rgba@[k] == rgba_byte(
                bgra@,
                width as int,
                bytes_per_row as int,
                k,
            ),
{
    let mut rgba: Vec<u8> = Vec::with_capacity((width * height * 4) as usize);
    let h = height as usize;
    let w = width as usize;
    let n: usize = bgra.len();
    let mut y: usize = 0;
    while y < h
        invariant
            h == height,
            w == width,
            n == bgra@.len(),
            y <= h,
            width * height * 4 <= u32::MAX,
            height > 0 ==> (height - 1) * bytes_per_row <= usize::MAX,
            width > 0 && height > 0 ==> (height - 1) * bytes_per_row + width * 4 <= bgra@.len(),
            rgba@.len() == y * w * 4,
            forall|k: int|
                0 <= k < rgba@.len() ==> #[trigger] rgba@[k] == rgba_byte(
                    bgra@,
                    w as int,
                    bytes_per_row as int,
                    k,
                ),
        decreases h - y,
    {
        proof {
            assert(y * bytes_per_row <= (h - 1) * bytes_per_row) by (nonlinear_arith)
                requires
                    y <= h - 1,
            ;
        }
        let row_start = y * bytes_per_row;
        let mut x: usize = 0;
        while x < w
            invariant
                h == height,
                w == width,
                y < h,
                x <= w,
                row_start == y * bytes_per_row,
                n == bgra@.len(),
                w > 0 ==> row_start + w * 4 <= bgra@.len(),
                width * height * 4 <= u32::MAX,
                rgba@.len() == (y * w + x) * 4,
                forall|k: int|
                    0 <= k < rgba@.len() ==> #[trigger] rgba@[k] == rgba_byte(
                        bgra@,
                        w as int,
                        bytes_per_row as int,
                        k,
                    ),
            decreases w - x,
        {
            assert(x * 4 < w * 4);
            let offset = row_start + x * 4;
            let b = bgra[offset];
            let g = bgra[offset + 1];
            let r = bgra[offset + 2];
            let a = bgra[offset + 3];
            let ghost base = rgba@.len() as int;
            proof {
                let q = (y * w + x) as int;
                vstd::arithmetic::div_mod::lemma_fundamental_div_mod_converse(base, 4, q, 0);
                vstd::arithmetic::div_mod::lemma_fundamental_div_mod_converse(base + 1, 4, q, 1);
                vstd::arithmetic::div_mod::lemma_fundamental_div_mod_converse(base + 2, 4, q, 2);
                vstd::arithmetic::div_mod::lemma_fundamental_div_mod_converse(base + 3, 4, q, 3);
                vstd::arithmetic::div_mod::lemma_fundamental_div_mod_converse(
                    (y * w + x) as int,
                    w as int,
                    y as int,
                    x as int,
                );
            }
            rgba.push(r);
            rgba.push(g);
            rgba.push(b);
            rgba.push(a);
            proof {
                assert forall|k: int| 0 <= k < rgba@.len() implies #[trigger] rgba@[k]
                    == rgba_byte(bgra@, w as int, bytes_per_row as int, k) by {
                    if k >= base {
                        assert((k / 4) / (w as int) == y && (k / 4) % (w as int) == x);
                    }
                }
                assert((y * w + x + 1) * 4 == (y * w + x) * 4 + 4) by (nonlinear_arith);
            }
            x = x + 1;
        }
        proof {
            assert((y * w + w) * 4 == (y + 1) * w * 4) by (nonlinear_arith);
        }
        y = y + 1;
    }
    assert(h * w * 4 == width * height * 4) by (nonlinear_arith)
        requires
            h == height,
            w == width,
    ;
    rgba
}

/// The screenshot made of a BGRA display image of `width` x `height`
/// pixels with `bytes_per_row` bytes per row.
pub fn screenshot_from_bgra(bgra: &[u8], width: u32, height: u32, bytes_per_row: usize) -> (s:
    Screenshot)
    requires
        width * height * 4 <= u32::MAX,
        height > 0 ==> (height - 1) * bytes_per_row <= usize::MAX,
        width > 0 && height > 0 ==> (height - 1) * bytes_per_row + width * 4 <= bgra@.len(),
    ensures
        s.width == width,
        s.height == height,
        s.rgba@.len() == width * height * 4,
        forall|k: int|
            0 <= k < s.rgba@.len() ==> #[trigger] s.rgba@[k] == rgba_byte(
                bgra@,
                width as int,
                bytes_per_row as int,
                k,
            ),
{
    let rgba = bgra_to_rgba(bgra, width, height, bytes_per_row);
    Screenshot { width, height, rgba }
}

} // verus!
