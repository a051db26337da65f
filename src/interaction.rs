use vstd::prelude::*;

use crate::theme::{Color, ThemeColors};

verus! {

/// Visual state of a control.
#[derive(Clone, Copy, Debug, PartialEq, Eq, Structural)]
pub enum InteractionState {
    Idle,
    Hovered,
    Pressed,
}

/// What the primary button did during one tick.
#[derive(Clone, Copy, Debug, PartialEq, Eq, Structural)]
pub enum ButtonSignal {
    /// Up for the whole tick.
    Up,
    /// Went down during this tick.
    JustPressed,
    /// Down for the whole tick.
    Held,
    /// Went up during this tick.
    JustReleased,
}

/// Notification that a control was clicked; holds the control's id.
#[derive(Clone, Debug, PartialEq, Eq)]
pub struct ButtonClickEvent(pub String);

pub open spec fn is_down(button: ButtonSignal) -> bool {
    button == ButtonSignal::JustPressed || button == ButtonSignal::Held
}

/// The state a control takes from the signals of one tick. It does not depend
/// on the current state: the visual state is level-driven.
pub open spec fn next_state(pointer_over: bool, button: ButtonSignal) -> InteractionState {
    if !pointer_over {
        InteractionState::Idle
    } else if is_down(button) {
        InteractionState::Pressed
    } else {
        InteractionState::Hovered
    }
}

/// A click fires on the release edge, while the pointer is over a control that
/// was hovered or pressed in the previous tick.
pub open spec fn emits_click(current: InteractionState, pointer_over: bool, button: ButtonSignal) -> bool {
    &&& pointer_over
    &&& button == ButtonSignal::JustReleased
    &&& (current == InteractionState::Hovered || current == InteractionState::Pressed)
}

pub open spec fn color_of(state: InteractionState, colors: ThemeColors) -> Color {
    match state {
        InteractionState::Idle => colors.button,
        InteractionState::Hovered => colors.button_hovered,
        InteractionState::Pressed => colors.button_clicked,
    }
}

/// One step of the transition table: the next state and whether a click fires.
pub fn transition(current: InteractionState, pointer_over: bool, button: ButtonSignal) -> (r: (
    InteractionState,
    bool,
))
    ensures
        r.0 == next_state(pointer_over, button),
        r.1 == emits_click(current, pointer_over, button),
{
    if !pointer_over {
        (InteractionState::Idle, false)
    } else {
        match button {
            ButtonSignal::JustPressed | ButtonSignal::Held => (InteractionState::Pressed, false),
            ButtonSignal::Up => (InteractionState::Hovered, false),
            ButtonSignal::JustReleased => {
                let click = match current {
                    InteractionState::Idle => false,
                    _ => true,
                };
                (InteractionState::Hovered, click)
            },
        }
    }
}

/// The color a control shows in a state.
pub fn state_color(state: InteractionState, colors: &ThemeColors) -> (c: Color)
    ensures
        c == color_of(state, *colors),
{
    match state {
        InteractionState::Idle => colors.button,
        InteractionState::Hovered => colors.button_hovered,
        InteractionState::Pressed => colors.button_clicked,
    }
}

/// Per-control interaction record.
#[derive(Clone, Debug)]
pub struct InteractionRecord {
    pub control_id: String,
    pub state: InteractionState,
}

impl InteractionRecord {
    /// A freshly spawned control starts idle.
    pub fn new(control_id: String) -> (r: InteractionRecord)
        ensures
            r.control_id@ == control_id@,
            r.state == InteractionState::Idle,
    {
        InteractionRecord { control_id, state: InteractionState::Idle }
    }

    /// Evaluates the control once for this tick: moves to the next state and
    /// returns the color to apply, with a click event on a release edge.
    pub fn update(&mut self, pointer_over: bool, button: ButtonSignal, colors: &ThemeColors) -> (r:
        (Color, Option<ButtonClickEvent>))
        ensures
            final(self).control_id@ == old(self).control_id@,
            final(self).state == next_state(pointer_over, button),
            r.0 == color_of(next_state(pointer_over, button), *colors),
            r.1 is Some <==> emits_click(old(self).state, pointer_over, button),
            r.1 matches Some(ev) ==> ev.0@ == old(self).control_id@,
    {
        let (next, click) = transition(self.state, pointer_over, button);
        self.state = next;
        let color = state_color(next, colors);
        if click {
            (color, Some(ButtonClickEvent(self.control_id.clone())))
        } else {
            (color, None)
        }
    }
}

/// Count of click events fired by a sequence of ticks, starting from `start`.
pub open spec fn clicks_over(start: InteractionState, ticks: Seq<(bool, ButtonSignal)>) -> nat
    decreases ticks.len(),
{
    if ticks.len() == 0 {
        0
    } else {
        let (over, button) = ticks[0];
        (if emits_click(start, over, button) { 1nat } else { 0nat }) + clicks_over(
            next_state(over, button),
            ticks.drop_first(),
        )
    }
}

/// Holding the button never fires a click: however long a control stays
/// pressed, ticks whose button is down add no click event.
pub proof fn lemma_no_click_while_held(start: InteractionState, ticks: Seq<(bool, ButtonSignal)>)
    requires
        forall|i: int| 0 <= i < ticks.len() ==> is_down(#[trigger] ticks[i].1),
    ensures
        clicks_over(start, ticks) == 0,
    decreases ticks.len(),
{
    if ticks.len() > 0 {
        assert(is_down(ticks[0].1));
        let rest = ticks.drop_first();
        assert forall|i: int| 0 <= i < rest.len() implies is_down(#[trigger] rest[i].1) by {
            assert(rest[i] == ticks[i + 1]);
        }
        lemma_no_click_while_held(next_state(ticks[0].0, ticks[0].1), rest);
    }
}

/// Number of ticks whose button went up.
pub open spec fn releases(ticks: Seq<(bool, ButtonSignal)>) -> nat
    decreases ticks.len(),
{
    if ticks.len() == 0 {
        0
    } else {
        (if ticks[0].1 == ButtonSignal::JustReleased { 1nat } else { 0nat }) + releases(
            ticks.drop_first(),
        )
    }
}

/// Clicks are edge-triggered: a run of ticks fires at most one click per
/// release edge.
pub proof fn lemma_clicks_at_most_releases(start: InteractionState, ticks: Seq<(bool, ButtonSignal)>)
    ensures
        clicks_over(start, ticks) <= releases(ticks),
    decreases ticks.len(),
{
    if ticks.len() > 0 {
        lemma_clicks_at_most_releases(next_state(ticks[0].0, ticks[0].1), ticks.drop_first());
    }
}

} // verus!
