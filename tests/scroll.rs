use bevy_forms::interaction::InteractionState;
use bevy_forms::list::FormListComponent;
use bevy_forms::scroll::{
    content_height, max_scroll, scroll_offset, wheel_delta, ScrollUnit, WheelEvent, SUBPIXELS,
};

/// A line-based event of `lines` whole lines.
fn line(lines: i32) -> WheelEvent {
    WheelEvent { y: lines * SUBPIXELS as i32, unit: ScrollUnit::Line }
}

/// A pixel-based event of `px` whole pixels.
fn pixel(px: i32) -> WheelEvent {
    WheelEvent { y: px * SUBPIXELS as i32, unit: ScrollUnit::Pixel }
}

/// Whole pixels as a fixed-point offset.
fn px(p: i64) -> i64 {
    p * SUBPIXELS
}

#[test]
fn max_scroll_is_overflow_or_zero() {
    assert_eq!(max_scroll(500, 200), 300);
    assert_eq!(max_scroll(200, 500), 0);
    assert_eq!(max_scroll(200, 200), 0);
}

#[test]
fn one_line_scrolls_twenty_pixels() {
    let mut list = FormListComponent::new(7);
    let p = list.scroll(500, 200, &vec![line(-1)], InteractionState::Hovered);
    assert_eq!(p, px(-20));
    assert_eq!(list.scroll_position(), px(-20));
}

#[test]
fn scrolling_past_the_bottom_clamps() {
    let mut list = FormListComponent::new(7);
    let mut p = 0;
    for _ in 0..20 {
        p = list.scroll(500, 200, &vec![line(-1)], InteractionState::Hovered);
    }
    assert_eq!(p, px(-300));
    let p = list.scroll(500, 200, &vec![line(-3), pixel(-1000)], InteractionState::Pressed);
    assert_eq!(p, px(-300));
}

#[test]
fn scrolling_past_the_top_clamps() {
    let mut list = FormListComponent::new(7);
    list.scroll(500, 200, &vec![pixel(-50)], InteractionState::Hovered);
    let p = list.scroll(500, 200, &vec![line(10)], InteractionState::Hovered);
    assert_eq!(p, 0);
}

#[test]
fn events_are_summed_before_clamping() {
    let evs = vec![line(-20), line(19)];
    assert_eq!(scroll_offset(0, 500, 200, &evs, InteractionState::Hovered, true), px(-20));
    assert_eq!(wheel_delta(&vec![line(-2), pixel(7)]), px(-33) as i128);
}

#[test]
fn fractional_deltas_add_up() {
    let quarter = WheelEvent { y: -(SUBPIXELS as i32) / 4, unit: ScrollUnit::Pixel };
    let evs = vec![quarter, quarter, quarter, quarter];
    assert_eq!(scroll_offset(0, 500, 200, &evs, InteractionState::Hovered, true), px(-1));
    let half_line = WheelEvent { y: -(SUBPIXELS as i32) / 2, unit: ScrollUnit::Line };
    assert_eq!(wheel_delta(&vec![half_line]), px(-10) as i128);
}

#[test]
fn wheel_is_ignored_when_pointer_is_elsewhere() {
    let mut list = FormListComponent::new(7);
    let p = list.scroll(500, 200, &vec![line(-1)], InteractionState::Idle);
    assert_eq!(p, 0);
    list.set_scroll_only_when_hovered(false);
    let p = list.scroll(500, 200, &vec![line(-1)], InteractionState::Idle);
    assert_eq!(p, px(-20));
}

#[test]
fn shrinking_content_pulls_offset_back() {
    let mut list = FormListComponent::new(7);
    list.scroll(500, 200, &vec![pixel(-250)], InteractionState::Hovered);
    let p = list.scroll(300, 200, &Vec::new(), InteractionState::Idle);
    assert_eq!(p, px(-100));
    let p = list.scroll(100, 200, &Vec::new(), InteractionState::Idle);
    assert_eq!(p, 0);
}

#[test]
fn extreme_events_do_not_overflow() {
    let min_line = WheelEvent { y: i32::MIN, unit: ScrollUnit::Line };
    let min_pixel = WheelEvent { y: i32::MIN, unit: ScrollUnit::Pixel };
    let evs = vec![min_line, min_line, min_pixel];
    assert_eq!(scroll_offset(0, 1000, 0, &evs, InteractionState::Hovered, true), px(-1000));
    assert_eq!(
        scroll_offset(0, u32::MAX, 0, &evs, InteractionState::Hovered, true),
        41 * i32::MIN as i64
    );
    let max_line = WheelEvent { y: i32::MAX, unit: ScrollUnit::Line };
    let evs = vec![max_line, max_line];
    assert_eq!(scroll_offset(-5, u32::MAX, 0, &evs, InteractionState::Hovered, true), 0);
}

#[test]
fn content_height_sums_children() {
    assert_eq!(content_height(&vec![100, 150, 250]), 500);
    assert_eq!(content_height(&Vec::new()), 0);
    assert_eq!(content_height(&vec![u32::MAX, 1, 5]), u32::MAX);
}
