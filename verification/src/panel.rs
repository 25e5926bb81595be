//! The panel render engine's pure pieces: which framebuffer rows a repaint
//! changed, where it erased ink, and the focus-mode block timer.

use vstd::prelude::*;

verus! {

broadcast use vstd::std_specs::bits::axiom_u8_leading_zeros, vstd::std_specs::bits::axiom_u8_trailing_zeros;

/// Panel width in pixels.
pub const WIDTH: u16 = 792;

/// Panel height in pixels.
pub const HEIGHT: u16 = 272;

/// Bytes per framebuffer row (one bit per pixel, 1 = white).
pub const FB_BYTES_W: usize = 99;

/// Rows present in both frames (whole rows only).
pub open spec fn common_rows(a: Seq<u8>, b: Seq<u8>) -> int {
    let ra = a.len() / (FB_BYTES_W as nat);
    let rb = b.len() / (FB_BYTES_W as nat);
    if ra <= rb {
        ra as int
    } else {
        rb as int
    }
}

/// Row `y` differs between the frames.
pub open spec fn row_differs(a: Seq<u8>, b: Seq<u8>, y: int) -> bool {
    let w = FB_BYTES_W as int;
    a.subrange(y * w, y * w + w) != b.subrange(y * w, y * w + w)
}

fn row_eq(a: &[u8], b: &[u8], y: usize) -> (r: bool)
    requires
        (y + 1) * FB_BYTES_W <= a.len(),
        (y + 1) * FB_BYTES_W <= b.len(),
    ensures
        r == !row_differs(a@, b@, y as int),
{
    let w = FB_BYTES_W;
    let start = y * w;
    let mut i: usize = 0;
    while i < w
        invariant
            start == y * w,
            w == FB_BYTES_W,
            start + w <= a.len(),
            start + w <= b.len(),
            i <= w,
            forall|j: int| start <= j < start + i ==> a@[j] == b@[j],
        decreases w - i,
    {
        if a[start + i] != b[start + i] {
            assert(a@.subrange(start as int, start + w as int)[i as int] != b@.subrange(
                start as int,
                start + w as int,
            )[i as int]);
            return false;
        }
        i += 1;
    }
    assert(a@.subrange(start as int, start + w as int) =~= b@.subrange(
        start as int,
        start + w as int,
    ));
    true
}

/// First and last (inclusive) framebuffer rows that differ between two frames,
/// or `None` if identical. Lets a partial refresh target just the band a
/// keystroke touched. Row numbers are reported as `u16`.
pub fn changed_rows(a: &[u8], b: &[u8]) -> (r: Option<(u16, u16)>)
    ensures
        r is None ==> forall|y: int| 0 <= y < common_rows(a@, b@) ==> !row_differs(a@, b@, y),
        r matches Some((f, l)) ==> exists|yf: int, yl: int|
            0 <= yf <= yl < common_rows(a@, b@) && row_differs(a@, b@, yf) && row_differs(
                a@,
                b@,
                yl,
            ) && (forall|y: int| 0 <= y < yf ==> !row_differs(a@, b@, y)) && (forall|y: int|
                yl < y < common_rows(a@, b@) ==> !row_differs(a@, b@, y)) && f == yf as u16 && l
                == yl as u16,
{
    let w = FB_BYTES_W;
    let rows = if a.len() / w <= b.len() / w {
        a.len() / w
    } else {
        b.len() / w
    };
    assert(rows == common_rows(a@, b@));
    let mut first: Option<usize> = None;
    let mut last: usize = 0;
    let mut y: usize = 0;
    while y < rows
        invariant
            rows == common_rows(a@, b@),
            rows * w <= a.len(),
            rows * w <= b.len(),
            w == FB_BYTES_W,
            y <= rows,
            first is None ==> forall|z: int| 0 <= z < y ==> !row_differs(a@, b@, z),
            first matches Some(f) ==> f <= last < y && row_differs(a@, b@, f as int)
                && row_differs(a@, b@, last as int) && (forall|z: int|
                0 <= z < f ==> !row_differs(a@, b@, z)) && (forall|z: int|
                last < z < y ==> !row_differs(a@, b@, z)),
        decreases rows - y,
    {
        assert((y + 1) * w <= rows * w) by (nonlinear_arith)
            requires
                y < rows,
        ;
        if !row_eq(a, b, y) {
            if first.is_none() {
                first = Some(y);
            }
            last = y;
        }
        y += 1;
    }
    proof {
        assert(rows * w <= a.len() && rows * w <= b.len()) by (nonlinear_arith)
            requires
                rows == common_rows(a@, b@),
                w == 99,
        ;
    }
    match first {
        Some(f) => Some((f as u16, last as u16)),
        None => None,
    }
}

/// Bit `j` (counted from the least significant end) of `e` is set.
pub open spec fn bit_set(e: u8, j: u8) -> bool {
    (e >> j) & 1u8 == 1u8
}

/// Pixel `x` of row `y` went from black to white between the frames (a bit
/// set in `b` but clear in `a`; 1 = white). Pixels are MSB-first.
pub open spec fn erased_at(a: Seq<u8>, b: Seq<u8>, y: int, x: int) -> bool {
    let i = y * (FB_BYTES_W as int) + x / 8;
    bit_set(b[i] & !a[i], (7 - x % 8) as u8)
}

/// Whether row `y` exists in both frames.
pub open spec fn row_in_both(a: Seq<u8>, b: Seq<u8>, y: int) -> bool {
    0 <= y && (y + 1) * (FB_BYTES_W as int) <= a.len() && (y + 1) * (FB_BYTES_W as int) <= b.len()
}

/// The rows `erase_bbox` looks at: `y0..=y1`, stopping at the first row
/// missing from either frame.
pub open spec fn scanned_row(a: Seq<u8>, b: Seq<u8>, y0: int, y1: int, y: int) -> bool {
    y0 <= y <= y1 && forall|z: int| y0 <= z <= y ==> #[trigger] row_in_both(a, b, z)
}

/// An erased pixel at `(x, y)` on a scanned row.
#[verifier::opaque]
pub open spec fn erased_pixel(a: Seq<u8>, b: Seq<u8>, y0: int, y1: int, x: int, y: int) -> bool {
    scanned_row(a, b, y0, y1, y) && 0 <= x < 8 * FB_BYTES_W && erased_at(a, b, y, x)
}

proof fn lemma_byte_bits(e: u8)
    requires
        e != 0,
    ensures
        e.leading_zeros() < 8,
        e.trailing_zeros() < 8,
        e.trailing_zeros() <= 7 - e.leading_zeros(),
        bit_set(e, (7 - e.leading_zeros()) as u8),
        bit_set(e, e.trailing_zeros() as u8),
        forall|j: u8| 8 - e.leading_zeros() <= j < 8 ==> !#[trigger] bit_set(e, j),
        forall|j: u8| j < e.trailing_zeros() ==> !#[trigger] bit_set(e, j),
{
    let lz = e.leading_zeros();
    let tz = e.trailing_zeros();
    let t = (7 - lz) as u8;
    assert((e >> t) & 1u8 != 0u8);
    assert((e >> t) & 1u8 != 0u8 ==> (e >> t) & 1u8 == 1u8) by (bit_vector);
    assert forall|j: u8| 8 - lz <= j < 8 implies !#[trigger] bit_set(e, j) by {
        assert((e >> j) & 1u8 == 0u8);
    }
    assert forall|j: u8| j < tz implies !#[trigger] bit_set(e, j) by {
        assert((e >> j) & 1u8 == 0u8);
    }
    if tz > 7 - lz {
        // the bit at 7 - lz is set, so it is not among the trailing zeros
        assert(!bit_set(e, t));
    }
}

/// What `erase_bbox` reports for rows `y0..=y1`: `None` when no pixel was
/// erased, else the tightest box holding every erased pixel.
pub open spec fn is_erase_bbox(
    a: Seq<u8>,
    b: Seq<u8>,
    y0: int,
    y1: int,
    r: Option<(u16, u16, u16, u16)>,
) -> bool {
    match r {
        None => forall|x: int, y: int| !#[trigger] erased_pixel(a, b, y0, y1, x, y),
        Some((bx0, bx1, by0, by1)) => {
            &&& exists|y: int| #[trigger] erased_pixel(a, b, y0, y1, bx0 as int, y)
            &&& exists|y: int| #[trigger] erased_pixel(a, b, y0, y1, bx1 as int, y)
            &&& exists|x: int| #[trigger] erased_pixel(a, b, y0, y1, x, by0 as int)
            &&& exists|x: int| #[trigger] erased_pixel(a, b, y0, y1, x, by1 as int)
            &&& forall|x: int, y: int|
                #[trigger] erased_pixel(a, b, y0, y1, x, y) ==> bx0 <= x <= bx1 && by0 <= y <= by1
        },
    }
}

/// Pixel `(x, yy)` comes before pixel `(xl, yl)` in row-major scan order.
pub open spec fn scanned_before(yy: int, x: int, yl: int, xl: int) -> bool {
    yy < yl || (yy == yl && x < xl)
}

/// The running box is right for every pixel scanned before `(xl, yl)`.
spec fn bbox_so_far(
    a: Seq<u8>,
    b: Seq<u8>,
    y0: int,
    y1: int,
    bb: Option<(u16, u16, u16, u16)>,
    yl: int,
    xl: int,
) -> bool {
    match bb {
        None => forall|x: int, yy: int|
            scanned_before(yy, x, yl, xl) ==> !#[trigger] erased_pixel(a, b, y0, y1, x, yy),
        Some((bx0, bx1, by0, by1)) => {
            &&& by0 <= by1 <= yl
            &&& exists|yy: int| #[trigger] erased_pixel(a, b, y0, y1, bx0 as int, yy)
            &&& exists|yy: int| #[trigger] erased_pixel(a, b, y0, y1, bx1 as int, yy)
            &&& exists|x: int| #[trigger] erased_pixel(a, b, y0, y1, x, by0 as int)
            &&& exists|x: int| #[trigger] erased_pixel(a, b, y0, y1, x, by1 as int)
            &&& forall|x: int, yy: int|
                scanned_before(yy, x, yl, xl) && #[trigger] erased_pixel(a, b, y0, y1, x, yy)
                    ==> bx0 <= x <= bx1 && by0 <= yy <= by1
        },
    }
}

/// The running box after a byte of row `y` whose erased pixels span `xl..=xh`.
spec fn merged(bb: Option<(u16, u16, u16, u16)>, xl: u16, xh: u16, y: u16) -> Option<
    (u16, u16, u16, u16),
> {
    match bb {
        None => Some((xl, xh, y, y)),
        Some((bx0, bx1, by0, _)) => Some(
            (if xl < bx0 {
                xl
            } else {
                bx0
            }, if xh > bx1 {
                xh
            } else {
                bx1
            }, by0, y),
        ),
    }
}

proof fn lemma_merge_byte(
    a: Seq<u8>,
    b: Seq<u8>,
    y0: int,
    y1: int,
    bb: Option<(u16, u16, u16, u16)>,
    y: u16,
    xb: int,
    xl: u16,
    xh: u16,
)
    requires
        bbox_so_far(a, b, y0, y1, bb, y as int, 8 * xb),
        erased_pixel(a, b, y0, y1, xl as int, y as int),
        erased_pixel(a, b, y0, y1, xh as int, y as int),
        8 * xb <= xl <= xh < 8 * xb + 8,
        forall|x: int|
            8 * xb <= x < 8 * xb + 8 && #[trigger] erased_pixel(a, b, y0, y1, x, y as int) ==> xl
                <= x <= xh,
    ensures
        bbox_so_far(a, b, y0, y1, merged(bb, xl, xh, y), y as int, 8 * xb + 8),
{
    let nb = merged(bb, xl, xh, y);
    match bb {
        None => {
            assert forall|x: int, yy: int|
                scanned_before(yy, x, y as int, 8 * xb + 8) && #[trigger] erased_pixel(
                    a,
                    b,
                    y0,
                    y1,
                    x,
                    yy,
                ) implies xl <= x <= xh && y <= yy <= y by {
                if scanned_before(yy, x, y as int, 8 * xb) {
                    assert(!erased_pixel(a, b, y0, y1, x, yy));
                } else {
                    assert(8 * xb <= x < 8 * xb + 8);
                }
            }
            assert(nb == Some((xl, xh, y, y)));
            assert(exists|yy: int| #[trigger] erased_pixel(a, b, y0, y1, xl as int, yy));
            assert(exists|yy: int| #[trigger] erased_pixel(a, b, y0, y1, xh as int, yy));
            assert(exists|x: int| #[trigger] erased_pixel(a, b, y0, y1, x, y as int));
            assert(forall|x: int, yy: int|
                scanned_before(yy, x, y as int, 8 * xb + 8) && #[trigger] erased_pixel(a, b, y0, y1, x, yy)
                    ==> xl <= x <= xh && y <= yy <= y);
            let (bx0, bx1, by0, by1) = nb->0;
            assert(bx0 == xl && bx1 == xh && by0 == y && by1 == y);
            assert(forall|x: int, yy: int|
                scanned_before(yy, x, y as int, 8 * xb + 8) && #[trigger] erased_pixel(a, b, y0, y1, x, yy)
                    ==> bx0 <= x <= bx1 && by0 <= yy <= by1);
            assert(bbox_so_far(a, b, y0, y1, nb, y as int, 8 * xb + 8));
        },
        Some((bx0, bx1, by0, by1)) => {
            let n0 = if xl < bx0 {
                xl
            } else {
                bx0
            };
            let n1 = if xh > bx1 {
                xh
            } else {
                bx1
            };
            let m0 = by0;
            let m1 = y;
            assert(nb == Some((n0, n1, m0, m1)));
            assert(exists|yy: int| #[trigger] erased_pixel(a, b, y0, y1, n0 as int, yy)) by {
                if n0 == xl {
                    assert(erased_pixel(a, b, y0, y1, xl as int, y as int));
                }
            }
            assert(exists|yy: int| #[trigger] erased_pixel(a, b, y0, y1, n1 as int, yy)) by {
                if n1 == xh {
                    assert(erased_pixel(a, b, y0, y1, xh as int, y as int));
                }
            }
            assert(exists|x: int| #[trigger] erased_pixel(a, b, y0, y1, x, m1 as int)) by {
                assert(erased_pixel(a, b, y0, y1, xl as int, y as int));
            }
            assert forall|x: int, yy: int|
                scanned_before(yy, x, y as int, 8 * xb + 8) && #[trigger] erased_pixel(
                    a,
                    b,
                    y0,
                    y1,
                    x,
                    yy,
                ) implies n0 <= x <= n1 && m0 <= yy <= m1 by {
                if scanned_before(yy, x, y as int, 8 * xb) {
                } else {
                    assert(8 * xb <= x < 8 * xb + 8);
                }
            }
            assert(exists|x: int| #[trigger] erased_pixel(a, b, y0, y1, x, m0 as int));
            assert(m0 <= m1 <= y);
            let (c0, c1, c2, c3) = nb->0;
            assert(c0 == n0 && c1 == n1 && c2 == m0 && c3 == m1);
            assert(forall|x: int, yy: int|
                scanned_before(yy, x, y as int, 8 * xb + 8) && #[trigger] erased_pixel(a, b, y0, y1, x, yy)
                    ==> c0 <= x <= c1 && c2 <= yy <= c3);
            assert(exists|yy: int| #[trigger] erased_pixel(a, b, y0, y1, c0 as int, yy));
            assert(exists|yy: int| #[trigger] erased_pixel(a, b, y0, y1, c1 as int, yy));
            assert(exists|x: int| #[trigger] erased_pixel(a, b, y0, y1, x, c2 as int));
            assert(exists|x: int| #[trigger] erased_pixel(a, b, y0, y1, x, c3 as int));
            assert(bbox_so_far(a, b, y0, y1, nb, y as int, 8 * xb + 8));
        },
    }
}

proof fn lemma_skip_byte(
    a: Seq<u8>,
    b: Seq<u8>,
    y0: int,
    y1: int,
    bb: Option<(u16, u16, u16, u16)>,
    y: int,
    xb: int,
)
    requires
        bbox_so_far(a, b, y0, y1, bb, y, 8 * xb),
        forall|x: int| 8 * xb <= x < 8 * xb + 8 ==> !#[trigger] erased_pixel(a, b, y0, y1, x, y),
    ensures
        bbox_so_far(a, b, y0, y1, bb, y, 8 * xb + 8),
{
    match bb {
        None => {
            assert forall|x: int, yy: int| scanned_before(yy, x, y, 8 * xb + 8) implies !#[trigger] erased_pixel(
                a,
                b,
                y0,
                y1,
                x,
                yy,
            ) by {
                if !scanned_before(yy, x, y, 8 * xb) {
                    assert(8 * xb <= x < 8 * xb + 8);
                }
            }
        },
        Some((bx0, bx1, by0, by1)) => {
            assert forall|x: int, yy: int|
                scanned_before(yy, x, y, 8 * xb + 8) && #[trigger] erased_pixel(a, b, y0, y1, x, yy)
                    implies bx0 <= x <= bx1 && by0 <= yy <= by1 by {
                if !scanned_before(yy, x, y, 8 * xb) {
                    assert(8 * xb <= x < 8 * xb + 8);
                }
            }
        },
    }
}

proof fn lemma_next_row(
    a: Seq<u8>,
    b: Seq<u8>,
    y0: int,
    y1: int,
    bb: Option<(u16, u16, u16, u16)>,
    y: int,
)
    requires
        bbox_so_far(a, b, y0, y1, bb, y, 8 * FB_BYTES_W),
    ensures
        bbox_so_far(a, b, y0, y1, bb, y + 1, 0),
{
    reveal(erased_pixel);
    match bb {
        None => {
            assert forall|x: int, yy: int| scanned_before(yy, x, y + 1, 0) implies !#[trigger] erased_pixel(
                a,
                b,
                y0,
                y1,
                x,
                yy,
            ) by {
                if yy == y && erased_pixel(a, b, y0, y1, x, yy) {
                    assert(scanned_before(yy, x, y, 8 * FB_BYTES_W));
                }
            }
        },
        Some((bx0, bx1, by0, by1)) => {
            assert forall|x: int, yy: int|
                scanned_before(yy, x, y + 1, 0) && #[trigger] erased_pixel(a, b, y0, y1, x, yy)
                    implies bx0 <= x <= bx1 && by0 <= yy <= by1 by {
                assert(scanned_before(yy, x, y, 8 * FB_BYTES_W));
            }
        },
    }
}

proof fn lemma_scan_done(
    a: Seq<u8>,
    b: Seq<u8>,
    y0: int,
    y1: int,
    bb: Option<(u16, u16, u16, u16)>,
    y: int,
)
    requires
        bbox_so_far(a, b, y0, y1, bb, y, 0),
        forall|x: int, yy: int| yy >= y ==> !#[trigger] erased_pixel(a, b, y0, y1, x, yy),
    ensures
        is_erase_bbox(a, b, y0, y1, bb),
{
    match bb {
        None => {
            assert forall|x: int, yy: int| !#[trigger] erased_pixel(a, b, y0, y1, x, yy) by {
                if yy < y {
                    assert(scanned_before(yy, x, y, 0));
                }
            }
        },
        Some((bx0, bx1, by0, by1)) => {
            assert forall|x: int, yy: int| #[trigger] erased_pixel(a, b, y0, y1, x, yy) implies bx0
                <= x <= bx1 && by0 <= yy <= by1 by {
                if yy < y {
                    assert(scanned_before(yy, x, y, 0));
                }
            }
        },
    }
}

/// The erased pixels of one framebuffer byte span columns `xl..=xh` of it.
proof fn lemma_byte_span(a: Seq<u8>, b: Seq<u8>, y0: int, y1: int, y: int, xb: int, erased: u8)
    requires
        scanned_row(a, b, y0, y1, y),
        0 <= xb < FB_BYTES_W,
        erased == b[y * FB_BYTES_W + xb] & !a[y * FB_BYTES_W + xb],
    ensures
        erased == 0 ==> forall|x: int|
            8 * xb <= x < 8 * xb + 8 ==> !#[trigger] erased_pixel(a, b, y0, y1, x, y),
        erased != 0 ==> {
            let xl = 8 * xb + erased.leading_zeros();
            let xh = 8 * xb + 7 - erased.trailing_zeros();
            &&& 8 * xb <= xl <= xh < 8 * xb + 8
            &&& erased_pixel(a, b, y0, y1, xl, y)
            &&& erased_pixel(a, b, y0, y1, xh, y)
            &&& forall|x: int|
                8 * xb <= x < 8 * xb + 8 && #[trigger] erased_pixel(a, b, y0, y1, x, y) ==> xl <= x
                    <= xh
        },
{
    reveal(erased_pixel);
    if erased == 0 {
        assert forall|x: int| 8 * xb <= x < 8 * xb + 8 implies !#[trigger] erased_pixel(
            a,
            b,
            y0,
            y1,
            x,
            y,
        ) by {
            assert(x / 8 == xb);
            let s = (7 - x % 8) as u8;
            assert((0u8 >> s) & 1u8 == 0u8) by (bit_vector);
            assert(!bit_set(erased, s));
        }
    } else {
        lemma_byte_bits(erased);
        let xl = 8 * xb + erased.leading_zeros();
        let xh = 8 * xb + 7 - erased.trailing_zeros();
        assert(xl / 8 == xb && xl % 8 == erased.leading_zeros());
        assert(xh / 8 == xb && xh % 8 == 7 - erased.trailing_zeros());
        assert(erased_pixel(a, b, y0, y1, xl, y));
        assert(erased_pixel(a, b, y0, y1, xh, y));
        assert forall|x: int|
            8 * xb <= x < 8 * xb + 8 && #[trigger] erased_pixel(a, b, y0, y1, x, y) implies xl <= x
            <= xh by {
            assert(x / 8 == xb);
            let o = x % 8;
            assert(x == 8 * xb + o);
            assert(bit_set(erased, (7 - o) as u8));
        }
    }
}

/// Bounding box `(x0, x1, y0, y1)` — pixels, inclusive — of the ink *erased*
/// going from frame `a` to `b` within rows `y0..=y1`, or `None` when the
/// change only adds ink. The scan stops at the first row missing from either
/// frame. Bit convention: 1 = white, 0 = black ink.
pub fn erase_bbox(a: &[u8], b: &[u8], y0: u16, y1: u16) -> (r: Option<(u16, u16, u16, u16)>)
    ensures
        is_erase_bbox(a@, b@, y0 as int, y1 as int, r),
{
    let w = FB_BYTES_W;
    let mut bbox: Option<(u16, u16, u16, u16)> = None;
    let mut y: usize = y0 as usize;
    let ghost sy0 = y0 as int;
    let ghost sy1 = y1 as int;
    proof {
        reveal(erased_pixel);
    }
    while y <= y1 as usize
        invariant
            w == FB_BYTES_W,
            sy0 == y0 as int,
            sy1 == y1 as int,
            y0 <= y,
            y <= y1 as int + 1 || y == y0,
            forall|z: int| y0 <= z < y ==> #[trigger] row_in_both(a@, b@, z),
            bbox_so_far(a@, b@, sy0, sy1, bbox, y as int, 0),
        ensures
            bbox_so_far(a@, b@, sy0, sy1, bbox, y as int, 0),
            y > y1 || forall|x: int, yy: int| yy >= y ==> !#[trigger] erased_pixel(
                a@,
                b@,
                sy0,
                sy1,
                x,
                yy,
            ),
        decreases y1 as int + 1 - y,
    {
        let row = y * w;
        if row + w > a.len() || row + w > b.len() {
            proof {
                assert(!row_in_both(a@, b@, y as int));
                reveal(erased_pixel);
                assert forall|x: int, yy: int| yy >= y implies !#[trigger] erased_pixel(
                    a@,
                    b@,
                    sy0,
                    sy1,
                    x,
                    yy,
                ) by {
                    if scanned_row(a@, b@, sy0, sy1, yy) {
                        assert(row_in_both(a@, b@, y as int));
                    }
                }
            }
            break ;
        }
        assert(row_in_both(a@, b@, y as int));
        let mut xb: usize = 0;
        while xb < w
            invariant
                w == FB_BYTES_W,
                row == y * w,
                row + w <= a.len(),
                row + w <= b.len(),
                sy0 == y0 as int,
                sy1 == y1 as int,
                y0 <= y <= y1,
                xb <= w,
                forall|z: int| y0 <= z <= y ==> #[trigger] row_in_both(a@, b@, z),
                bbox_so_far(a@, b@, sy0, sy1, bbox, y as int, 8 * xb),
            decreases w - xb,
        {
            let pa = a[row + xb];
            let pb = b[row + xb];
            let erased = pb & !pa;
            proof {
                assert(scanned_row(a@, b@, sy0, sy1, y as int));
                lemma_byte_span(a@, b@, sy0, sy1, y as int, xb as int, erased);
            }
            if erased != 0 {
                proof {
                    lemma_byte_bits(erased);
                }
                let x_lo = (xb * 8) as u16 + erased.leading_zeros() as u16;
                let x_hi = (xb * 8) as u16 + 7 - erased.trailing_zeros() as u16;
                proof {
                    lemma_merge_byte(a@, b@, sy0, sy1, bbox, y as u16, xb as int, x_lo, x_hi);
                }
                bbox = match bbox {
                    None => Some((x_lo, x_hi, y as u16, y as u16)),
                    Some((bx0, bx1, by0, _)) => {
                        let n0 = if x_lo < bx0 {
                            x_lo
                        } else {
                            bx0
                        };
                        let n1 = if x_hi > bx1 {
                            x_hi
                        } else {
                            bx1
                        };
                        Some((n0, n1, by0, y as u16))
                    },
                };
            } else {
                proof {
                    lemma_skip_byte(a@, b@, sy0, sy1, bbox, y as int, xb as int);
                }
            }
            xb += 1;
        }
        proof {
            lemma_next_row(a@, b@, sy0, sy1, bbox, y as int);
        }
        y += 1;
    }
    proof {
        if y > y1 {
            reveal(erased_pixel);
        }
        lemma_scan_done(a@, b@, sy0, sy1, bbox, y as int);
    }
    bbox
}

/// The monotonic clock's reading, `std::time::Instant`.
#[verifier::external_type_specification]
#[verifier::external_body]
pub struct ExInstant(std::time::Instant);

/// Reads the monotonic clock through `std::time::Instant::now`. Nothing is
/// stated of the reading: it depends on when the call is made.
#[verifier::external_body]
fn instant_now() -> (t: std::time::Instant) {
    std::time::Instant::now()
}

/// Focus-mode (Pomodoro) block timer: `Some(start)` while a block is active
/// (its monotonic start), `None` when off. `words0` is the word count at the
/// block's start, for the "words this block" figure.
pub struct FocusTimer {
    start: Option<std::time::Instant>,
    words0: usize,
}

impl FocusTimer {
    /// A block is running.
    pub closed spec fn active(&self) -> bool {
        self.start is Some
    }

    /// The word count snapshotted when the block started.
    pub closed spec fn start_words(&self) -> usize {
        self.words0
    }

    /// The clock reading the running block started at.
    pub closed spec fn started(&self) -> Option<std::time::Instant> {
        self.start
    }

    /// Begin — or, after a break, restart — a focus block at the clock reading
    /// `now`: a running or stopped block is replaced by a fresh one, with the
    /// word count snapshotted for the rest card.
    pub fn start_at(&mut self, now: std::time::Instant, words0: usize)
        ensures
            final(self).started() == Some(now),
            final(self).active(),
            final(self).start_words() == words0,
    {
        self.start = Some(now);
        self.words0 = words0;
    }

    /// Begin — or, after a break, restart — a focus block now: start the
    /// monotonic timer at the clock's current reading and snapshot the word
    /// count for the rest card. The block starts at a reading taken by this
    /// call (what it is depends on when the call is made), never at an
    /// earlier block's start.
    pub fn start(&mut self, words0: usize)
        ensures
            final(self).active(),
            final(self).start_words() == words0,
    {
        let now = instant_now();
        self.start_at(now, words0);
    }

    /// End the session; the snapshotted word count is kept.
    pub fn stop(&mut self)
        ensures
            !final(self).active(),
            final(self).start_words() == old(self).start_words(),
    {
        self.start = None;
    }

    /// Whether a block is running.
    pub fn is_active(&self) -> (r: bool)
        ensures
            r == self.active(),
    {
        self.start.is_some()
    }

    /// The block's start reading, while one is running.
    pub fn started_at(&self) -> (r: Option<std::time::Instant>)
        ensures
            r == self.started(),
            r is Some == self.active(),
    {
        self.start
    }

    /// The word count at the block's start.
    pub fn words_at_start(&self) -> (r: usize)
        ensures
            r == self.start_words(),
    {
        self.words0
    }
}

impl Default for FocusTimer {
    fn default() -> (t: Self)
        ensures
            !t.active(),
            t.start_words() == 0,
    {
        FocusTimer { start: None, words0: 0 }
    }
}

} // verus!
