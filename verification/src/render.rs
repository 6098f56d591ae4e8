//! Assembly of the pixel buffer from per-row escape results.
//!
//! The escape-time recurrence itself runs on floating-point numbers and is
//! evaluated outside this library; what reaches these functions is, for each
//! pixel, either the iteration count at which the point escaped or the word
//! that it never did. Turning those results into grayscale bytes, writing
//! whole row bands into the flat buffer, and the guarantee that the finished
//! image does not depend on the order in which bands were written are all
//! specified and proved here.

use vstd::prelude::*;
use crate::grid::Bounds;
use crate::grid::in_band;
use crate::grid::lemma_bands_cover;
use crate::grid::lemma_bands_disjoint;
use crate::grid::lemma_pixel_index_in_range;
use crate::grid::lemma_row_col_of_index;

verus! {

/// Iteration limit of the escape-time evaluator.
pub const LIMIT: u32 = 255;

/// Grayscale intensity of an escape result: black for points that never
/// escaped, and the brighter the sooner a point escaped.
pub open spec fn intensity_spec(t: Option<u32>) -> u8 {
    match t {
        None => 0,
        Some(n) => (255 - n) as u8,
    }
}

/// Maps one escape result to its intensity byte: `None` (never escaped) to
/// 0, escape after `n` iterations to `255 - n`.
pub fn intensity(t: Option<u32>) -> (b: u8)
    requires
        (t matches Some(n) ==> n < LIMIT),
    ensures
        b == intensity_spec(t),
        t is None ==> b == 0,
        (t matches Some(n) ==> b == 255 - n),
{
    match t {
        None => 0,
        Some(n) => (255 - n) as u8,
    }
}

/// Turns the escape results of one band's pixels into its intensity bytes,
/// in order.
pub fn band_from_counts(counts: &Vec<Option<u32>>) -> (band: Vec<u8>)
    requires
        forall|j: int|
            0 <= j < counts@.len() ==> (#[trigger] counts@[j] matches Some(n) ==> n < LIMIT),
    ensures
        band@.len() == counts@.len(),
        forall|j: int| 0 <= j < band@.len() ==> band@[j] == intensity_spec(counts@[j]),
{
    let mut band: Vec<u8> = Vec::new();
    let mut j: usize = 0;
    while j < counts.len()
        invariant
            0 <= j <= counts@.len(),
            band@.len() == j,
            forall|k: int|
                0 <= k < counts@.len() ==> (#[trigger] counts@[k] matches Some(n) ==> n < LIMIT),
            forall|k: int| 0 <= k < j ==> band@[k] == intensity_spec(counts@[k]),
        decreases counts@.len() - j,
    {
        band.push(intensity(counts[j]));
        j += 1;
    }
    band
}

/// Writes one row band into the flat buffer: the band's range takes the
/// band's bytes and every other byte keeps its old value.
pub fn write_band(buf: &mut Vec<u8>, b: Bounds, row: usize, band: &Vec<u8>)
    requires
        b.wf(),
        old(buf)@.len() == b.area(),
        row < b.height,
        band@.len() == b.width,
    ensures
        final(buf)@.len() == old(buf)@.len(),
        forall|p: int|
            0 <= p < final(buf)@.len() ==> #[trigger] final(buf)@[p] == (if in_band(
                b,
                row as int,
                p,
            ) {
                band@[p - row * b.width]
            } else {
                old(buf)@[p]
            }),
{
    proof {
        lemma_pixel_index_in_range(b, 0, row as int);
    }
    let start: usize = row * b.width;
    let mut c: usize = 0;
    while c < b.width
        invariant
            b.wf(),
            row < b.height,
            band@.len() == b.width,
            start == row * b.width,
            0 <= c <= b.width,
            buf@.len() == old(buf)@.len() == b.area(),
            forall|p: int|
                0 <= p < buf@.len() ==> #[trigger] buf@[p] == (if start <= p < start + c {
                    band@[p - start]
                } else {
                    old(buf)@[p]
                }),
        decreases b.width - c,
    {
        proof {
            lemma_pixel_index_in_range(b, c as int, row as int);
        }
        buf.set(start + c, band[c]);
        c += 1;
    }
}

/// Row `r` of the image, as scheduled in `order`: some entry names it.
pub open spec fn scheduled(order: Seq<usize>, r: int) -> bool {
    exists|k: int| 0 <= k < order.len() && #[trigger] order[k] == r
}

/// The finished image: the buffer holds, at every index, the byte of that
/// index's own row and column in the given row contents.
pub open spec fn rendered(b: Bounds, rows: Seq<Seq<u8>>, buf: Seq<u8>) -> bool {
    &&& buf.len() == b.area()
    &&& forall|p: int|
        0 <= p < buf.len() ==> #[trigger] buf[p] == rows[p / (b.width as int)][p % (
        b.width as int)]
}

/// Band `r` of the buffer holds row `r` of the given contents.
pub open spec fn band_holds(b: Bounds, rows: Seq<Seq<u8>>, buf: Seq<u8>, r: int) -> bool {
    forall|p: int|
        0 <= p < buf.len() && in_band(b, r, p) ==> #[trigger] buf[p] == rows[r][p - r * b.width]
}

/// Assembles the image by writing the given row contents into a fresh
/// buffer, one band per entry of `order`. Any `order` that schedules every
/// row — in whatever sequence, even with repeats — yields the rendered
/// image; the partition into disjoint row bands makes the outcome
/// independent of the schedule.
pub fn render_rows_in_order(b: Bounds, rows: &Vec<Vec<u8>>, order: &Vec<usize>) -> (buf: Vec<u8>)
    requires
        b.wf(),
        rows@.len() == b.height,
        forall|r: int| 0 <= r < rows@.len() ==> (#[trigger] rows@[r])@.len() == b.width,
        forall|k: int| 0 <= k < order@.len() ==> (#[trigger] order@[k]) < b.height,
        forall|r: int| 0 <= r < b.height ==> #[trigger] scheduled(order@, r),
    ensures
        rendered(b, rows@.map_values(|row: Vec<u8>| row@), buf@),
{
    let ghost contents = rows@.map_values(|row: Vec<u8>| row@);
    let n = b.buffer_len();
    let mut buf: Vec<u8> = Vec::new();
    while buf.len() < n
        invariant
            buf@.len() <= n,
        decreases n - buf@.len(),
    {
        buf.push(0);
    }
    let mut k: usize = 0;
    while k < order.len()
        invariant
            b.wf(),
            rows@.len() == b.height,
            forall|r: int| 0 <= r < rows@.len() ==> (#[trigger] rows@[r])@.len() == b.width,
            forall|k2: int| 0 <= k2 < order@.len() ==> (#[trigger] order@[k2]) < b.height,
            contents == rows@.map_values(|row: Vec<u8>| row@),
            0 <= k <= order@.len(),
            buf@.len() == b.area(),
            forall|k2: int|
                0 <= k2 < k ==> band_holds(b, contents, buf@, (#[trigger] order@[k2]) as int),
        decreases order@.len() - k,
    {
        let row = order[k];
        let ghost before = buf@;
        write_band(&mut buf, b, row, &rows[row]);
        proof {
            assert forall|k2: int| 0 <= k2 < k + 1 implies band_holds(
                b,
                contents,
                buf@,
                (#[trigger] order@[k2]) as int,
            ) by {
                let r2 = order@[k2] as int;
                assert forall|p: int| 0 <= p < buf@.len() && in_band(b, r2, p) implies #[trigger] buf@[p]
                    == contents[r2][p - r2 * b.width] by {
                    if in_band(b, row as int, p) {
                        lemma_bands_disjoint(b, r2, row as int, p);
                    } else {
                        assert(buf@[p] == before[p]);
                        assert(band_holds(b, contents, before, r2));
                    }
                }
            }
        }
        k += 1;
    }
    proof {
        assert forall|p: int| 0 <= p < buf@.len() implies #[trigger] buf@[p] == contents[p / (
        b.width as int)][p % (b.width as int)] by {
            lemma_row_col_of_index(b, p);
            let r = p / (b.width as int);
            assert(scheduled(order@, r));
            let k2 = choose|k2: int| 0 <= k2 < order@.len() && #[trigger] order@[k2] == r;
            assert(band_holds(b, contents, buf@, (order@[k2]) as int));
            assert(buf@[p] == contents[r][p - r * b.width]);
        }
    }
    buf
}

/// However the scheduler ordered or grouped its workers, two buffers
/// rendered from the same bounds and the same row contents are identical,
/// byte for byte.
pub proof fn lemma_rendered_unique(b: Bounds, rows: Seq<Seq<u8>>, buf1: Seq<u8>, buf2: Seq<u8>)
    requires
        b.wf(),
        rendered(b, rows, buf1),
        rendered(b, rows, buf2),
    ensures
        buf1 == buf2,
{
    assert forall|p: int| 0 <= p < buf1.len() implies buf1[p] == buf2[p] by {
        lemma_bands_cover(b, p);
    }
    assert(buf1 =~= buf2);
}

} // verus!
