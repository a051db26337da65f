use vstd::prelude::*;

use crate::interaction::InteractionState;

verus! {

/// Pixels scrolled per line of a line-based wheel event.
pub const LINE_HEIGHT: i64 = 20;

/// Offsets and wheel magnitudes are fixed-point numbers with this many steps
/// per pixel (per line, for a line-based event), so that fractional wheel
/// deltas add up. Measured heights are whole pixels.
pub const SUBPIXELS: i64 = 64;

/// The unit of a wheel event's magnitude.
#[derive(Clone, Copy, Debug, PartialEq, Eq, Structural)]
pub enum ScrollUnit {
    Line,
    Pixel,
}

/// A wheel event with a signed vertical magnitude, in `1 / SUBPIXELS` of
/// its unit.
#[derive(Clone, Copy, Debug, PartialEq, Eq, Structural)]
pub struct WheelEvent {
    pub y: i32,
    pub unit: ScrollUnit,
}

pub open spec fn event_delta(ev: WheelEvent) -> int {
    match ev.unit {
        ScrollUnit::Line => LINE_HEIGHT * ev.y,
        ScrollUnit::Pixel => ev.y as int,
    }
}

/// Sum of the deltas of the events, in `1 / SUBPIXELS` pixel, in arrival order.
pub open spec fn total_delta(events: Seq<WheelEvent>) -> int
    decreases events.len(),
{
    if events.len() == 0 {
        0
    } else {
        total_delta(events.drop_last()) + event_delta(events.last())
    }
}

pub open spec fn spec_max_scroll(content_height: int, viewport_height: int) -> int {
    if content_height > viewport_height {
        content_height - viewport_height
    } else {
        0
    }
}

pub open spec fn clamp(x: int, lo: int, hi: int) -> int {
    if x < lo {
        lo
    } else if x > hi {
        hi
    } else {
        x
    }
}

pub open spec fn sum_heights(heights: Seq<u32>) -> int
    decreases heights.len(),
{
    if heights.len() == 0 {
        0
    } else {
        sum_heights(heights.drop_last()) + heights.last()
    }
}

/// The offset after one tick: wheel events are folded in, unless the policy
/// ignores them for a list the pointer is not over, and the sum is clamped to
/// the scrollable range.
pub open spec fn next_offset(
    offset: int,
    content_height: int,
    viewport_height: int,
    events: Seq<WheelEvent>,
    interaction: InteractionState,
    only_when_hovered: bool,
) -> int {
    let delta = if only_when_hovered && interaction == InteractionState::Idle {
        0
    } else {
        total_delta(events)
    };
    clamp(offset + delta, -SUBPIXELS * spec_max_scroll(content_height, viewport_height), 0)
}

/// How far the content can scroll: `max(0, content_height - viewport_height)`.
pub fn max_scroll(content_height: u32, viewport_height: u32) -> (m: u32)
    ensures
        m == spec_max_scroll(content_height as int, viewport_height as int),
{
    if content_height > viewport_height {
        content_height - viewport_height
    } else {
        0
    }
}

/// Total height of the children, saturating at `u32::MAX`.
pub fn content_height(child_heights: &Vec<u32>) -> (h: u32)
    ensures
        h == (if sum_heights(child_heights@) > u32::MAX {
            u32::MAX as int
        } else {
            sum_heights(child_heights@)
        }),
{
    let mut total: u32 = 0;
    let mut saturated = false;
    let mut i: usize = 0;
    while i < child_heights.len()
        invariant
            i <= child_heights.len(),
            saturated ==> total == u32::MAX && sum_heights(child_heights@.take(i as int)) > u32::MAX,
            !saturated ==> total == sum_heights(child_heights@.take(i as int)),
        decreases child_heights.len() - i,
    {
        let h = child_heights[i];
        proof {
            let t = child_heights@.take(i as int + 1);
            assert(t.drop_last() =~= child_heights@.take(i as int));
            lemma_sum_heights_nonneg(child_heights@.take(i as int));
        }
        if !saturated {
            if total > u32::MAX - h {
                total = u32::MAX;
                saturated = true;
            } else {
                total = total + h;
            }
        }
        i = i + 1;
    }
    assert(child_heights@.take(i as int) =~= child_heights@);
    total
}

pub proof fn lemma_sum_heights_nonneg(heights: Seq<u32>)
    ensures
        sum_heights(heights) >= 0,
    decreases heights.len(),
{
    if heights.len() > 0 {
        lemma_sum_heights_nonneg(heights.drop_last());
    }
}

/// Delta, in `1 / SUBPIXELS` pixel, of a sequence of wheel events.
pub fn wheel_delta(events: &Vec<WheelEvent>) -> (d: i128)
    ensures
        d == total_delta(events@),
        -0x10_0000_0000_0000_0000_0000_0000 <= d <= 0x10_0000_0000_0000_0000_0000_0000,
{
    let mut acc: i128 = 0;
    let mut i: usize = 0;
    while i < events.len()
        invariant
            i <= events.len(),
            acc == total_delta(events@.take(i as int)),
            -(i as int) * 42949672960 <= acc <= (i as int) * 42949672960,
        decreases events.len() - i,
    {
        let ev = events[i];
        proof {
            assert(events@.take(i as int + 1).drop_last() =~= events@.take(i as int));
        }
        let d: i128 = match ev.unit {
            ScrollUnit::Line => {
                assert(-42949672960 <= 20 * ev.y <= 42949672960) by (nonlinear_arith)
                    requires
                        i32::MIN <= ev.y <= i32::MAX,
                ;
                LINE_HEIGHT as i128 * ev.y as i128
            },
            ScrollUnit::Pixel => ev.y as i128,
        };
        assert(-42949672960 <= d <= 42949672960);
        acc = acc + d;
        i = i + 1;
    }
    assert(events@.take(i as int) =~= events@);
    assert(i <= 0xffff_ffff_ffff_ffff);
    assert((i as int) * 42949672960 <= 0x10_0000_0000_0000_0000_0000_0000) by (nonlinear_arith)
        requires
            i <= 0xffff_ffff_ffff_ffff,
    ;
    acc
}

/// The offset, in `1 / SUBPIXELS` pixel, that a list takes after this tick's
/// wheel events. The result is never positive and never below
/// `-SUBPIXELS * max_scroll(content_height, viewport_height)`.
pub fn scroll_offset(
    offset: i64,
    content_height: u32,
    viewport_height: u32,
    events: &Vec<WheelEvent>,
    interaction: InteractionState,
    only_when_hovered: bool,
) -> (r: i64)
    ensures
        r == next_offset(
            offset as int,
            content_height as int,
            viewport_height as int,
            events@,
            interaction,
            only_when_hovered,
        ),
        -SUBPIXELS * spec_max_scroll(content_height as int, viewport_height as int) <= r <= 0,
{
    let max = max_scroll(content_height, viewport_height);
    let ignored = only_when_hovered && interaction == InteractionState::Idle;
    let delta: i128 = if ignored {
        0
    } else {
        wheel_delta(events)
    };
    let target: i128 = offset as i128 + delta;
    assert(SUBPIXELS == 64);
    let lo: i128 = -(max as i128) * 64;
    if target < lo {
        -(max as i64) * 64
    } else if target > 0 {
        0
    } else {
        target as i64
    }
}

} // verus!
