//! Finding the extent of content in a rendered page: the pixels whose red,
//! green or blue channel is below the white threshold.

use vstd::prelude::*;

verus! {

/// Channel values below this count as ink.
pub const WHITE_THRESHOLD: u8 = 250;

/// Byte offset of pixel `(x, y)` in a row-major RGBA buffer of the given
/// width.
pub open spec fn pixel_offset(width: int, x: int, y: int) -> int {
    (y * width + x) * 4
}

/// Whether pixel `(x, y)` is ink: its three colour bytes lie in the buffer
/// and one of them is below the threshold.
pub open spec fn is_ink(pixels: Seq<u8>, width: int, x: int, y: int) -> bool {
    let i = pixel_offset(width, x, y);
    &&& 0 <= i
    &&& i + 2 < pixels.len()
    &&& (pixels[i] < WHITE_THRESHOLD || pixels[i + 1] < WHITE_THRESHOLD || pixels[i + 2]
        < WHITE_THRESHOLD)
}

/// Whether the region `[x0, x1) x [y0, y1)` holds ink.
pub open spec fn region_has_ink(pixels: Seq<u8>, width: int, x0: int, x1: int, y0: int, y1: int) -> bool {
    exists|x: int, y: int| x0 <= x < x1 && y0 <= y < y1 && #[trigger] is_ink(pixels, width, x, y)
}

/// The result of scanning the region `[x0, x1) x [y0, y1)`: the smallest
/// and largest column and row of ink, as `(min_x, max_x, min_y, max_y)`;
/// with no ink it is `(x1, x0, y1, y0)`.
pub open spec fn scan_result(
    pixels: Seq<u8>,
    width: int,
    x0: int,
    x1: int,
    y0: int,
    y1: int,
    r: (u32, u32, u32, u32),
) -> bool {
    if region_has_ink(pixels, width, x0, x1, y0, y1) {
        &&& x0 <= r.0 < x1 && x0 <= r.1 < x1 && y0 <= r.2 < y1 && y0 <= r.3 < y1
        &&& forall|x: int, y: int|
            x0 <= x < x1 && y0 <= y < y1 && #[trigger] is_ink(pixels, width, x, y) ==> r.0 <= x
                <= r.1 && r.2 <= y <= r.3
        &&& exists|y: int| y0 <= y < y1 && #[trigger] is_ink(pixels, width, r.0 as int, y)
        &&& exists|y: int| y0 <= y < y1 && #[trigger] is_ink(pixels, width, r.1 as int, y)
        &&& exists|x: int| x0 <= x < x1 && #[trigger] is_ink(pixels, width, x, r.2 as int)
        &&& exists|x: int| x0 <= x < x1 && #[trigger] is_ink(pixels, width, x, r.3 as int)
    } else {
        r == (x1 as u32, x0 as u32, y1 as u32, y0 as u32)
    }
}

/// Pixel `(px, py)` has been scanned once the scan of `[x0, x1) x [y0, ..)`
/// row by row has reached column `xc` of row `yc`.
pub open spec fn in_scan(x0: int, x1: int, y0: int, yc: int, xc: int, px: int, py: int) -> bool {
    x0 <= px < x1 && ((y0 <= py < yc) || (py == yc && px < xc))
}

/// `b` bounds the ink among the scanned pixels, `found` says whether there
/// is any, and each bound is attained.
pub open spec fn covers(
    pixels: Seq<u8>,
    w: int,
    x0: int,
    x1: int,
    y0: int,
    yc: int,
    xc: int,
    found: bool,
    b: (u32, u32, u32, u32),
) -> bool {
    &&& forall|px: int, py: int|
        in_scan(x0, x1, y0, yc, xc, px, py) && #[trigger] is_ink(pixels, w, px, py) ==> found
            && b.0 <= px <= b.1 && b.2 <= py <= b.3
    &&& found ==> exists|px: int, py: int|
        in_scan(x0, x1, y0, yc, xc, px, py) && #[trigger] is_ink(pixels, w, px, py) && px == b.0
    &&& found ==> exists|px: int, py: int|
        in_scan(x0, x1, y0, yc, xc, px, py) && #[trigger] is_ink(pixels, w, px, py) && px == b.1
    &&& found ==> exists|px: int, py: int|
        in_scan(x0, x1, y0, yc, xc, px, py) && #[trigger] is_ink(pixels, w, px, py) && py == b.2
    &&& found ==> exists|px: int, py: int|
        in_scan(x0, x1, y0, yc, xc, px, py) && #[trigger] is_ink(pixels, w, px, py) && py == b.3
}

proof fn lemma_covers_end(
    pixels: Seq<u8>,
    w: int,
    x0: int,
    x1: int,
    y0: int,
    y1: int,
    found: bool,
    b: (u32, u32, u32, u32),
)
    requires
        covers(pixels, w, x0, x1, y0, y1, x0, found, b),
        !found ==> b == (x1 as u32, x0 as u32, y1 as u32, y0 as u32),
    ensures
        scan_result(pixels, w, x0, x1, y0, y1, b),
        found == region_has_ink(pixels, w, x0, x1, y0, y1),
{
    if region_has_ink(pixels, w, x0, x1, y0, y1) {
        let (px, py) = choose|x: int, y: int| x0 <= x < x1 && y0 <= y < y1 && #[trigger] is_ink(pixels, w, x, y);
        assert(in_scan(x0, x1, y0, y1, x0, px, py));
        assert(found);
        let (ax, ay) = choose|px: int, py: int| in_scan(x0, x1, y0, y1, x0, px, py) && #[trigger] is_ink(pixels, w, px, py) && px == b.0;
        assert(y0 <= ay < y1 && x0 <= b.0 < x1 && is_ink(pixels, w, b.0 as int, ay));
        let (bx, by) = choose|px: int, py: int| in_scan(x0, x1, y0, y1, x0, px, py) && #[trigger] is_ink(pixels, w, px, py) && px == b.1;
        assert(y0 <= by < y1 && x0 <= b.1 < x1 && is_ink(pixels, w, b.1 as int, by));
        let (cx, cy) = choose|px: int, py: int| in_scan(x0, x1, y0, y1, x0, px, py) && #[trigger] is_ink(pixels, w, px, py) && py == b.2;
        assert(x0 <= cx < x1 && y0 <= b.2 < y1 && is_ink(pixels, w, cx, b.2 as int));
        let (dx, dy) = choose|px: int, py: int| in_scan(x0, x1, y0, y1, x0, px, py) && #[trigger] is_ink(pixels, w, px, py) && py == b.3;
        assert(x0 <= dx < x1 && y0 <= b.3 < y1 && is_ink(pixels, w, dx, b.3 as int));
        assert forall|x: int, y: int|
            x0 <= x < x1 && y0 <= y < y1 && #[trigger] is_ink(pixels, w, x, y) implies b.0 <= x
                <= b.1 && b.2 <= y <= b.3 by {
            assert(in_scan(x0, x1, y0, y1, x0, x, y));
        }
    } else {
        if found {
            let (ax, ay) = choose|px: int, py: int| in_scan(x0, x1, y0, y1, x0, px, py) && #[trigger] is_ink(pixels, w, px, py) && px == b.0;
            assert(x0 <= ax < x1 && y0 <= ay < y1 && is_ink(pixels, w, ax, ay));
        }
    }
}

/// The scan result is determined by the pixels and the region: any two
/// results that meet `scan_result` are equal.
pub proof fn lemma_scan_result_unique(
    pixels: Seq<u8>,
    w: int,
    x0: int,
    x1: int,
    y0: int,
    y1: int,
    r1: (u32, u32, u32, u32),
    r2: (u32, u32, u32, u32),
)
    requires
        scan_result(pixels, w, x0, x1, y0, y1, r1),
        scan_result(pixels, w, x0, x1, y0, y1, r2),
    ensures
        r1 == r2,
{
    if region_has_ink(pixels, w, x0, x1, y0, y1) {
        let ya = choose|y: int| y0 <= y < y1 && #[trigger] is_ink(pixels, w, r2.0 as int, y);
        let yb = choose|y: int| y0 <= y < y1 && #[trigger] is_ink(pixels, w, r1.0 as int, y);
        let yc = choose|y: int| y0 <= y < y1 && #[trigger] is_ink(pixels, w, r2.1 as int, y);
        let yd = choose|y: int| y0 <= y < y1 && #[trigger] is_ink(pixels, w, r1.1 as int, y);
        let xa = choose|x: int| x0 <= x < x1 && #[trigger] is_ink(pixels, w, x, r2.2 as int);
        let xb = choose|x: int| x0 <= x < x1 && #[trigger] is_ink(pixels, w, x, r1.2 as int);
        let xc = choose|x: int| x0 <= x < x1 && #[trigger] is_ink(pixels, w, x, r2.3 as int);
        let xd = choose|x: int| x0 <= x < x1 && #[trigger] is_ink(pixels, w, x, r1.3 as int);
        assert(r1.0 <= r2.0 && r2.0 <= r1.0);
        assert(r1.1 >= r2.1 && r2.1 >= r1.1);
        assert(r1.2 <= r2.2 && r2.2 <= r1.2);
        assert(r1.3 >= r2.3 && r2.3 >= r1.3);
    }
}

/// Scans the region `[x0, x1) x [y0, y1)` of an RGBA buffer of the given
/// width for ink.
pub fn scan_region(pixels: &[u8], width: u16, x0: u32, x1: u32, y0: u32, y1: u32) -> (r: (
    u32,
    u32,
    u32,
    u32,
))
    ensures
        scan_result(pixels@, width as int, x0 as int, x1 as int, y0 as int, y1 as int, r),
{
    let ghost w = width as int;
    let mut found = false;
    let mut b: (u32, u32, u32, u32) = (x1, x0, y1, y0);
    if y1 <= y0 || x1 <= x0 {
        proof {
            assert forall|px: int, py: int|
                in_scan(x0 as int, x1 as int, y0 as int, y1 as int, x0 as int, px, py) implies false by {
            }
            lemma_covers_end(pixels@, w, x0 as int, x1 as int, y0 as int, y1 as int, found, b);
        }
        return b;
    }
    let mut y = y0;
    while y < y1
        invariant
            x0 < x1,
            y0 <= y <= y1,
            w == width as int,
            covers(pixels@, w, x0 as int, x1 as int, y0 as int, y as int, x0 as int, found, b),
            !found ==> b == (x1, x0, y1, y0),
        decreases y1 - y,
    {
        let mut x = x0;
        while x < x1
            invariant
                x0 <= x <= x1,
                y0 <= y < y1,
                w == width as int,
                covers(pixels@, w, x0 as int, x1 as int, y0 as int, y as int, x as int, found, b),
                !found ==> b == (x1, x0, y1, y0),
            decreases x1 - x,
        {
            assert((y as u64) * (width as u64) <= 0xFFFF_FFFFu64 * 0xFFFFu64) by (nonlinear_arith)
                requires
                    y <= 0xFFFF_FFFFu32,
                    width <= 0xFFFFu16,
            ;
            let idx: u64 = ((y as u64) * (width as u64) + (x as u64)) * 4;
            assert(idx == pixel_offset(w, x as int, y as int));
            let ink = if idx + 2 < pixels.len() as u64 {
                let i = idx as usize;
                pixels[i] < WHITE_THRESHOLD || pixels[i + 1] < WHITE_THRESHOLD || pixels[i + 2]
                    < WHITE_THRESHOLD
            } else {
                false
            };
            assert(ink == is_ink(pixels@, w, x as int, y as int));
            let ghost old_b = b;
            let ghost old_found = found;
            if ink {
                if !found {
                    b = (x, x, y, y);
                    found = true;
                } else {
                    if x < b.0 {
                        b.0 = x;
                    }
                    if x > b.1 {
                        b.1 = x;
                    }
                    if y < b.2 {
                        b.2 = y;
                    }
                    if y > b.3 {
                        b.3 = y;
                    }
                }
            }
            proof {
                let (xi, yi) = (x as int, y as int);
                let (xa, ya, ya1) = (x0 as int, y0 as int, y1 as int);
                assert forall|px: int, py: int|
                    in_scan(xa, x1 as int, ya, yi, xi + 1, px, py) && #[trigger] is_ink(pixels@, w, px, py)
                        implies found && b.0 <= px <= b.1 && b.2 <= py <= b.3 by {
                    if !(px == xi && py == yi) {
                        assert(in_scan(xa, x1 as int, ya, yi, xi, px, py));
                    }
                }
                if found {
                    if ink && (!old_found || xi < old_b.0) {
                        assert(in_scan(xa, x1 as int, ya, yi, xi + 1, xi, yi) && is_ink(pixels@, w, xi, yi) && xi == b.0);
                    } else {
                        let (qx, qy) = choose|px: int, py: int| in_scan(xa, x1 as int, ya, yi, xi, px, py) && #[trigger] is_ink(pixels@, w, px, py) && px == old_b.0;
                        assert(in_scan(xa, x1 as int, ya, yi, xi + 1, qx, qy));
                    }
                    if ink && (!old_found || xi > old_b.1) {
                        assert(in_scan(xa, x1 as int, ya, yi, xi + 1, xi, yi) && is_ink(pixels@, w, xi, yi) && xi == b.1);
                    } else {
                        let (qx, qy) = choose|px: int, py: int| in_scan(xa, x1 as int, ya, yi, xi, px, py) && #[trigger] is_ink(pixels@, w, px, py) && px == old_b.1;
                        assert(in_scan(xa, x1 as int, ya, yi, xi + 1, qx, qy));
                    }
                    if ink && (!old_found || yi < old_b.2) {
                        assert(in_scan(xa, x1 as int, ya, yi, xi + 1, xi, yi) && is_ink(pixels@, w, xi, yi) && yi == b.2);
                    } else {
                        let (qx, qy) = choose|px: int, py: int| in_scan(xa, x1 as int, ya, yi, xi, px, py) && #[trigger] is_ink(pixels@, w, px, py) && py == old_b.2;
                        assert(in_scan(xa, x1 as int, ya, yi, xi + 1, qx, qy));
                    }
                    if ink && (!old_found || yi > old_b.3) {
                        assert(in_scan(xa, x1 as int, ya, yi, xi + 1, xi, yi) && is_ink(pixels@, w, xi, yi) && yi == b.3);
                    } else {
                        let (qx, qy) = choose|px: int, py: int| in_scan(xa, x1 as int, ya, yi, xi, px, py) && #[trigger] is_ink(pixels@, w, px, py) && py == old_b.3;
                        assert(in_scan(xa, x1 as int, ya, yi, xi + 1, qx, qy));
                    }
                }
            }
            x = x + 1;
        }
        proof {
            let (yi, xa) = (y as int, x0 as int);
            assert forall|px: int, py: int|
                in_scan(xa, x1 as int, y0 as int, yi + 1, xa, px, py) <==> in_scan(
                    xa,
                    x1 as int,
                    y0 as int,
                    yi,
                    x1 as int,
                    px,
                    py,
                ) by {
            }
        }
        y = y + 1;
    }
    proof {
        lemma_covers_end(pixels@, w, x0 as int, x1 as int, y0 as int, y1 as int, found, b);
    }
    b
}


/// The extent found by a scan, or `None` where the scan's bounds are
/// inverted (no ink in a non-empty region).
pub open spec fn extent_of(r: (u32, u32, u32, u32)) -> Option<(u32, u32, u32, u32)> {
    if r.0 > r.1 || r.2 > r.3 {
        None
    } else {
        Some(r)
    }
}

/// The extent of ink in `[x0, x1) x [y0, y1)`, as `(min_x, max_x, min_y,
/// max_y)`, or `None` where the scan finds none.
pub fn ink_extent(pixels: &[u8], width: u16, x0: u32, x1: u32, y0: u32, y1: u32) -> (r: Option<(u32, u32, u32, u32)>)
    ensures
        exists|s: (u32, u32, u32, u32)|
            #[trigger] scan_result(pixels@, width as int, x0 as int, x1 as int, y0 as int, y1 as int, s)
                && r == extent_of(s),
{
    let s = scan_region(pixels, width, x0, x1, y0, y1);
    assert(scan_result(pixels@, width as int, x0 as int, x1 as int, y0 as int, y1 as int, s));
    if s.0 > s.1 || s.2 > s.3 {
        None
    } else {
        Some(s)
    }
}

/// A rendered page of `hayro`.
#[verifier::external_type_specification]
#[verifier::external_body]
pub struct ExPixmap(hayro::Pixmap);

/// What `hayro::Pixmap::data_as_u8_slice` gives: the bytes of a rendered
/// page, row-major RGBA, four bytes a pixel.
pub uninterp spec fn pixmap_bytes(p: hayro::Pixmap) -> Seq<u8>;

/// What `hayro::Pixmap::width` gives: the width of a rendered page in pixels.
pub uninterp spec fn pixmap_width(p: hayro::Pixmap) -> u16;

/// What `hayro::Pixmap::height` gives: the height of a rendered page in
/// pixels.
pub uninterp spec fn pixmap_height(p: hayro::Pixmap) -> u16;

/// Calls `hayro::Pixmap::width`.
#[verifier::external_body]
fn width_of(p: &hayro::Pixmap) -> (r: u16)
    ensures
        r == pixmap_width(*p),
{
    p.width()
}

/// Calls `hayro::Pixmap::height`.
#[verifier::external_body]
fn height_of(p: &hayro::Pixmap) -> (r: u16)
    ensures
        r == pixmap_height(*p),
{
    p.height()
}

/// Calls `hayro::Pixmap::data_as_u8_slice`: the pixel bytes.
#[verifier::external_body]
fn bytes_of(p: &hayro::Pixmap) -> (r: &[u8])
    ensures
        r@ == pixmap_bytes(*p),
{
    p.data_as_u8_slice()
}

/// The extent of ink on a whole rendered page, in pixels, as `(min_x,
/// max_x, min_y, max_y)` with rows counted from the top; `None` for a page
/// without ink.
pub fn scan_pixmap_for_content(pixmap: &hayro::Pixmap) -> (r: Option<(u32, u32, u32, u32)>)
    ensures
        exists|s: (u32, u32, u32, u32)|
            #[trigger] scan_result(
                pixmap_bytes(*pixmap),
                pixmap_width(*pixmap) as int,
                0,
                pixmap_width(*pixmap) as int,
                0,
                pixmap_height(*pixmap) as int,
                s,
            ) && r == extent_of(s),
{
    let w = width_of(pixmap);
    let h = height_of(pixmap);
    let data = bytes_of(pixmap);
    ink_extent(data, w, 0, w as u32, 0, h as u32)
}

/// The extent of ink within a region of a rendered page (columns
/// `[x0, x1)`, rows `[y0, y1)` from the top), or `None` where there is none.
pub fn scan_pixmap_region(pixmap: &hayro::Pixmap, x0: u32, x1: u32, y0: u32, y1: u32) -> (r: Option<(u32, u32, u32, u32)>)
    ensures
        exists|s: (u32, u32, u32, u32)|
            #[trigger] scan_result(
                pixmap_bytes(*pixmap),
                pixmap_width(*pixmap) as int,
                x0 as int,
                x1 as int,
                y0 as int,
                y1 as int,
                s,
            ) && r == extent_of(s),
{
    let w = width_of(pixmap);
    let data = bytes_of(pixmap);
    ink_extent(data, w, x0, x1, y0, y1)
}

} // verus!
