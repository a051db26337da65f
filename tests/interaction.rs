use bevy_forms::interaction::{transition, ButtonClickEvent, ButtonSignal, InteractionRecord, InteractionState};
use bevy_forms::theme::{Color, ThemeColors};

fn colors() -> ThemeColors {
    ThemeColors {
        primary: Color::rgba(1, 1, 1, 255),
        button: Color::rgba(10, 10, 10, 255),
        button_hovered: Color::rgba(20, 20, 20, 255),
        button_clicked: Color::rgba(30, 30, 30, 255),
    }
}

#[test]
fn hover_then_release_clicks_once() {
    let c = colors();
    let mut rec = InteractionRecord::new("ok".to_string());
    let (color, ev) = rec.update(true, ButtonSignal::Up, &c);
    assert_eq!(rec.state, InteractionState::Hovered);
    assert_eq!(color, c.button_hovered);
    assert!(ev.is_none());
    let (color, ev) = rec.update(true, ButtonSignal::JustReleased, &c);
    assert_eq!(rec.state, InteractionState::Hovered);
    assert_eq!(color, c.button_hovered);
    assert_eq!(ev, Some(ButtonClickEvent("ok".to_string())));
    let (_, ev) = rec.update(true, ButtonSignal::Up, &c);
    assert!(ev.is_none());
}

#[test]
fn held_button_never_clicks() {
    let c = colors();
    let mut rec = InteractionRecord::new("ok".to_string());
    let mut clicks = 0;
    for signal in [ButtonSignal::Up, ButtonSignal::JustPressed, ButtonSignal::Held, ButtonSignal::Held] {
        let (_, ev) = rec.update(true, signal, &c);
        if ev.is_some() {
            clicks += 1;
        }
    }
    assert_eq!(rec.state, InteractionState::Pressed);
    assert_eq!(clicks, 0);
    let (color, _) = rec.update(true, ButtonSignal::Held, &c);
    assert_eq!(color, c.button_clicked);
}

#[test]
fn press_released_over_control_clicks() {
    let (next, click) = transition(InteractionState::Pressed, true, ButtonSignal::JustReleased);
    assert_eq!(next, InteractionState::Hovered);
    assert!(click);
}

#[test]
fn release_after_leaving_does_not_click() {
    let c = colors();
    let mut rec = InteractionRecord::new("b".to_string());
    rec.update(true, ButtonSignal::JustPressed, &c);
    let (color, ev) = rec.update(false, ButtonSignal::JustReleased, &c);
    assert_eq!(rec.state, InteractionState::Idle);
    assert_eq!(color, c.button);
    assert!(ev.is_none());
}

#[test]
fn release_on_entry_does_not_click() {
    let (next, click) = transition(InteractionState::Idle, true, ButtonSignal::JustReleased);
    assert_eq!(next, InteractionState::Hovered);
    assert!(!click);
}

#[test]
fn pointer_away_is_idle_whatever_the_button() {
    for cur in [InteractionState::Idle, InteractionState::Hovered, InteractionState::Pressed] {
        for b in [ButtonSignal::Up, ButtonSignal::JustPressed, ButtonSignal::Held, ButtonSignal::JustReleased] {
            assert_eq!(transition(cur, false, b), (InteractionState::Idle, false));
        }
    }
}
