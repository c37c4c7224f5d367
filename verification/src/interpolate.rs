//! The lyric scroll interpolator: maps a playback position onto a viewport
//! scroll offset that centers the point between the current and the next
//! lyric line.
//!
//! Pixel quantities are integers in a unit the caller picks (whole pixels,
//! or a fixed-point fraction of one); positions and timestamps are
//! centiseconds. The easing here is linear: the interpolated target moves
//! proportionally with time between the two line centers.

use vstd::prelude::*;
use crate::document::LyricLine;

verus! {

/// Bound on a single pixel quantity (a height, the spacing, the viewport),
/// chosen so that no accumulated coordinate can overflow.
pub const MAX_PIXEL: i64 = 1048576;

/// Bound on the number of lyric lines the interpolator accepts.
pub const MAX_LINES: usize = 1048576;

/// Sum of `heights[j] + spacing` over `j < i`: the top of line `i` in
/// content space, not counting the half-viewport padding.
pub open spec fn spec_cum(heights: Seq<i64>, spacing: i64, i: int) -> int
    decreases i,
{
    if i <= 0 {
        0
    } else {
        spec_cum(heights, spacing, i - 1) + heights[i - 1] + spacing
    }
}

/// The vertical center of line `i` in content space: half the viewport of
/// top padding, the lines and spacing above it, and half its own height.
pub open spec fn spec_center(heights: Seq<i64>, spacing: i64, viewport: i64, i: int) -> int {
    viewport / 2 + spec_cum(heights, spacing, i) + heights[i] / 2
}

/// The first index whose timestamp lies beyond `pos`, or the length if none
/// does. For sorted lines, everything before it has happened and everything
/// from it on is still to come.
pub open spec fn spec_break_idx(lines: Seq<LyricLine>, pos: u64) -> int
    decreases lines.len(),
{
    if lines.len() == 0 {
        0
    } else if lines[0].timestamp > pos {
        0
    } else {
        1 + spec_break_idx(lines.subrange(1, lines.len() as int), pos)
    }
}

/// The scroll offset for position `pos`: 0 before the first line, the last
/// line's center minus half the viewport after the last line, and between
/// two lines the linear interpolation of their centers by elapsed time.
pub open spec fn spec_scroll_offset(
    lines: Seq<LyricLine>,
    heights: Seq<i64>,
    spacing: i64,
    viewport: i64,
    pos: u64,
) -> int {
    let b = spec_break_idx(lines, pos);
    if b == 0 {
        0
    } else if b == lines.len() {
        spec_center(heights, spacing, viewport, b - 1) - viewport / 2
    } else {
        let t0 = lines[b - 1].timestamp;
        let t1 = lines[b].timestamp;
        let c0 = spec_center(heights, spacing, viewport, b - 1);
        let c1 = spec_center(heights, spacing, viewport, b);
        c0 + (c1 - c0) * (pos - t0) / (t1 - t0) - viewport / 2
    }
}

/// What `spec_break_idx` returns: everything before it is at or before
/// `pos`, and the line there (if any) is beyond `pos`.
pub proof fn lemma_break_idx(lines: Seq<LyricLine>, pos: u64)
    ensures
        0 <= spec_break_idx(lines, pos) <= lines.len(),
        forall|j: int| 0 <= j < spec_break_idx(lines, pos) ==> lines[j].timestamp <= pos,
        spec_break_idx(lines, pos) < lines.len() ==> lines[spec_break_idx(
            lines,
            pos,
        )].timestamp > pos,
    decreases lines.len(),
{
    if lines.len() > 0 && lines[0].timestamp <= pos {
        let sub = lines.subrange(1, lines.len() as int);
        lemma_break_idx(sub, pos);
        let b = spec_break_idx(lines, pos);
        assert forall|j: int| 0 <= j < b implies lines[j].timestamp <= pos by {
            if j > 0 {
                assert(sub[j - 1] == lines[j]);
            }
        }
        if b < lines.len() {
            assert(lines[b] == sub[b - 1]);
        }
    }
}

/// The accumulated coordinate grows by at most twice the pixel bound per
/// line, and never shrinks.
pub proof fn lemma_cum_bound(heights: Seq<i64>, spacing: i64, i: int)
    requires
        0 <= spacing <= MAX_PIXEL,
        forall|j: int| 0 <= j < heights.len() ==> 0 <= #[trigger] heights[j] <= MAX_PIXEL,
        0 <= i <= heights.len(),
    ensures
        0 <= spec_cum(heights, spacing, i) <= i * (2 * MAX_PIXEL),
    decreases i,
{
    if i > 0 {
        lemma_cum_bound(heights, spacing, i - 1);
        assert((i - 1) * (2 * MAX_PIXEL) + 2 * MAX_PIXEL == i * (2 * MAX_PIXEL)) by (nonlinear_arith);
    }
}

/// Centers of later lines never lie above centers of earlier ones.
pub proof fn lemma_centers_monotone(heights: Seq<i64>, spacing: i64, viewport: i64, i: int)
    requires
        0 <= spacing,
        forall|j: int| 0 <= j < heights.len() ==> 0 <= #[trigger] heights[j],
        0 <= i,
        i + 1 < heights.len(),
    ensures
        spec_center(heights, spacing, viewport, i) <= spec_center(heights, spacing, viewport, i + 1),
{
    assert(spec_cum(heights, spacing, i + 1) == spec_cum(heights, spacing, i) + heights[i]
        + spacing);
}

/// Computes the scroll offset for the given position.
///
/// `heights` holds one measured height per line, in the caller's pixel
/// unit; `spacing` is the configured gap between lines; the measurement is
/// redone by the caller every frame, so nothing here is cached.
pub fn scroll_offset(
    lines: &Vec<LyricLine>,
    heights: &Vec<i64>,
    spacing: i64,
    viewport_height: i64,
    position_cs: u64,
) -> (r: i64)
    requires
        heights@.len() == lines@.len(),
        lines@.len() <= MAX_LINES,
        0 <= spacing <= MAX_PIXEL,
        0 <= viewport_height <= MAX_PIXEL,
        forall|j: int| 0 <= j < heights@.len() ==> 0 <= #[trigger] heights@[j] <= MAX_PIXEL,
    ensures
        r == spec_scroll_offset(lines@, heights@, spacing, viewport_height, position_cs),
{
    let n = lines.len();
    proof {
        lemma_break_idx(lines@, position_cs);
    }
    // find the first line beyond the position
    let mut b: usize = 0;
    while b < n && lines[b].timestamp <= position_cs
        invariant
            0 <= b <= n,
            n == lines@.len(),
            forall|j: int| 0 <= j < b ==> lines@[j].timestamp <= position_cs,
        decreases n - b,
    {
        b = b + 1;
    }
    proof {
        lemma_break_idx_is(lines@, position_cs, b as int);
    }
    let vc = viewport_height / 2;
    if b == 0 {
        return 0;
    }
    let c_prev = center_at(heights, spacing, viewport_height, b - 1);
    if b == n {
        return c_prev - vc;
    }
    let c_next = center_at(heights, spacing, viewport_height, b);
    let t0 = lines[b - 1].timestamp;
    let t1 = lines[b].timestamp;
    // t0 <= position < t1 here, so the time range is positive
    assert(t0 <= position_cs < t1);
    proof {
        let dci = c_next as int - c_prev as int;
        let dti = position_cs as int - t0 as int;
        if dci >= 0 {
            vstd::arithmetic::mul::lemma_mul_nonnegative(dci, dti);
            vstd::arithmetic::mul::lemma_mul_upper_bound(dci, 0x80000000000, dti,
                0x10000000000000000);
        } else {
            vstd::arithmetic::mul::lemma_mul_nonnegative(-dci, dti);
            vstd::arithmetic::mul::lemma_mul_upper_bound(-dci, 0x80000000000, dti,
                0x10000000000000000);
            assert(dci * dti == -((-dci) * dti)) by (nonlinear_arith);
        }
    }
    let num: i128 = (c_next - c_prev) as i128 * (position_cs - t0) as i128;
    let den: i128 = (t1 - t0) as i128;
    let lerp: i128 = num / den;
    proof {
        lemma_lerp_bounds(c_next as int - c_prev as int, (position_cs - t0) as int, (t1
            - t0) as int);
    }
    let r: i64 = c_prev + lerp as i64 - vc;
    r
}

/// A first index at or past every earlier timestamp and strictly before the
/// one there is what `spec_break_idx` returns.
pub proof fn lemma_break_idx_is(lines: Seq<LyricLine>, pos: u64, b: int)
    requires
        0 <= b <= lines.len(),
        forall|j: int| 0 <= j < b ==> lines[j].timestamp <= pos,
        b < lines.len() ==> lines[b].timestamp > pos,
    ensures
        spec_break_idx(lines, pos) == b,
{
    lemma_break_idx(lines, pos);
}

/// For a non-negative slope over a full step, the interpolated offset lies
/// between zero and the slope.
proof fn lemma_lerp_bounds(dc: int, dt: int, range: int)
    requires
        0 <= dc,
        0 <= dt < range,
    ensures
        0 <= dc * dt / range <= dc,
{
    assert(0 <= dc * dt) by (nonlinear_arith)
        requires
            0 <= dc,
            0 <= dt,
    ;
    assert(dc * dt <= dc * range) by (nonlinear_arith)
        requires
            0 <= dc,
            dt < range,
    ;
    assert(0 <= dc * dt / range) by (nonlinear_arith)
        requires
            0 <= dc * dt,
            0 < range,
    ;
    assert(dc * dt / range <= dc) by (nonlinear_arith)
        requires
            dc * dt <= dc * range,
            0 < range,
            0 <= dc,
    ;
}

/// At a line's own timestamp the interpolation centers that line exactly:
/// the offset puts its center in the middle of the viewport.
pub proof fn lemma_scroll_at_timestamp(
    lines: Seq<LyricLine>,
    heights: Seq<i64>,
    spacing: i64,
    viewport: i64,
    i: int,
)
    requires
        crate::document::lines_sorted(lines),
        0 <= i < lines.len(),
        i + 1 < lines.len() ==> lines[i + 1].timestamp > lines[i].timestamp,
    ensures
        spec_scroll_offset(lines, heights, spacing, viewport, lines[i].timestamp) == spec_center(
            heights,
            spacing,
            viewport,
            i,
        ) - viewport / 2,
{
    let pos = lines[i].timestamp;
    assert(forall|j: int| 0 <= j < i + 1 ==> lines[j].timestamp <= pos);
    lemma_break_idx_is(lines, pos, i + 1);
    if i + 1 < lines.len() {
        let c0 = spec_center(heights, spacing, viewport, i);
        let c1 = spec_center(heights, spacing, viewport, i + 1);
        assert((c1 - c0) * (pos - pos) == 0) by (nonlinear_arith);
    }
}

/// Exec computation of one line center.
fn center_at(heights: &Vec<i64>, spacing: i64, viewport: i64, i: usize) -> (c: i64)
    requires
        i < heights@.len(),
        heights@.len() <= MAX_LINES,
        0 <= spacing <= MAX_PIXEL,
        0 <= viewport <= MAX_PIXEL,
        forall|j: int| 0 <= j < heights@.len() ==> 0 <= #[trigger] heights@[j] <= MAX_PIXEL,
    ensures
        c == spec_center(heights@, spacing, viewport, i as int),
        0 <= c,
        c <= MAX_PIXEL + (MAX_LINES as i64) * (2 * MAX_PIXEL),
{
    let mut cum: i64 = 0;
    let mut j: usize = 0;
    proof {
        lemma_cum_bound(heights@, spacing, i as int);
    }
    while j < i
        invariant
            0 <= j <= i < heights@.len(),
            heights@.len() <= MAX_LINES,
            0 <= spacing <= MAX_PIXEL,
            forall|k: int| 0 <= k < heights@.len() ==> 0 <= #[trigger] heights@[k] <= MAX_PIXEL,
            cum == spec_cum(heights@, spacing, j as int),
        decreases i - j,
    {
        proof {
            lemma_cum_bound(heights@, spacing, j as int);
            assert((j as int) * (2 * MAX_PIXEL) <= (MAX_LINES as int) * (2 * MAX_PIXEL))
                by (nonlinear_arith)
                requires
                    0 <= j as int <= MAX_LINES as int,
            ;
        }
        cum = cum + heights[j] + spacing;
        j = j + 1;
    }
    proof {
        lemma_cum_bound(heights@, spacing, i as int);
    }
    viewport / 2 + cum + heights[i] / 2
}

/// Index of the last line whose timestamp is at or before `pos`, the line
/// being sung: the highlight the renderer marks as current.
pub fn find_current_line_index(lines: &Vec<LyricLine>, pos: u64) -> (r: Option<usize>)
    ensures
        match r {
            Some(i) => i < lines@.len() && lines@[i as int].timestamp <= pos && forall|j: int|
                i < j < lines@.len() ==> lines@[j].timestamp > pos,
            None => forall|j: int| 0 <= j < lines@.len() ==> lines@[j].timestamp > pos,
        },
{
    let n = lines.len();
    let mut i: usize = n;
    while i > 0
        invariant
            i <= n,
            n == lines@.len(),
            forall|j: int| i <= j < n ==> lines@[j].timestamp > pos,
        decreases i,
    {
        i = i - 1;
        if lines[i].timestamp <= pos {
            return Some(i);
        }
    }
    None
}

} // verus!
