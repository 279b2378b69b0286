//! How the viewer reacts to the events of its window.
//!
//! The caller polls the window, hands each event to [`handle_event`] and
//! carries out the action that comes back (turning the view, scrolling,
//! reloading the grammar, ...); it stops when `running` becomes false.
use vstd::prelude::*;

verus! {

/// An event of the window, as far as the viewer reacts to it. Mouse-wheel
/// deltas are not carried: the caller keeps them for the `Scroll` action.
#[derive(Debug, Clone, Copy, PartialEq, Eq, Structural)]
pub enum WindowEvent {
    Closed,
    Focused(bool),
    MouseMoved(i32, i32),
    MouseWheel,
    MouseInput,
    ReceivedCharacter(char),
    Other,
}

/// Whether the window has the focus, and whether the viewer keeps running.
#[derive(Debug, Clone, Copy, PartialEq, Eq, Structural)]
pub struct Control {
    pub focused: bool,
    pub running: bool,
}

/// What the caller has to do in answer to an event.
#[derive(Debug, Clone, Copy, PartialEq, Eq, Structural)]
pub enum Action {
    /// Nothing.
    Nothing,
    /// Put the cursor back to the middle of the window, and turn the view by
    /// the move of the mouse to `(x, y)`.
    Turn(i32, i32),
    /// Remember `(x, y)` as the last position of the mouse.
    SetLast(i32, i32),
    /// Zoom by the delta of the mouse wheel.
    Scroll,
    /// Pass on a mouse button.
    Button,
    /// Read the grammar again and rebuild the geometry.
    Reload,
}

/// The new focus after an event.
pub open spec fn spec_focus(focused: bool, ev: WindowEvent) -> bool {
    match ev {
        WindowEvent::Focused(f) => f,
        _ => focused,
    }
}

/// The control state after an event: closing the window stops the viewer,
/// and so does `q` while the window has the focus.
pub open spec fn spec_control(c: Control, ev: WindowEvent) -> Control {
    let focused = spec_focus(c.focused, ev);
    Control {
        focused,
        running: c.running && ev != WindowEvent::Closed && !(focused && ev
            == WindowEvent::ReceivedCharacter('q')),
    }
}

/// The action for an event; events are ignored while the window does not
/// have the focus.
pub open spec fn spec_action(c: Control, ev: WindowEvent, middle_x: i32, middle_y: i32) -> Action {
    if !spec_focus(c.focused, ev) {
        Action::Nothing
    } else {
        match ev {
            WindowEvent::MouseMoved(x, y) => if x != middle_x || y != middle_y {
                Action::Turn(x, y)
            } else {
                Action::SetLast(x, y)
            },
            WindowEvent::MouseWheel => Action::Scroll,
            WindowEvent::MouseInput => Action::Button,
            WindowEvent::ReceivedCharacter(ch) => if ch == 'r' {
                Action::Reload
            } else {
                Action::Nothing
            },
            _ => Action::Nothing,
        }
    }
}

/// The new control state and the action for one event; `(middle_x,
/// middle_y)` is the middle of the window.
pub fn handle_event(control: Control, ev: WindowEvent, middle_x: i32, middle_y: i32) -> (r: (
    Control,
    Action,
))
    ensures
        r.0 == spec_control(control, ev),
        r.1 == spec_action(control, ev, middle_x, middle_y),
{
    let mut state = control;
    match ev {
        WindowEvent::Closed => state.running = false,
        WindowEvent::Focused(nstate) => state.focused = nstate,
        _ => {},
    }
    let mut action = Action::Nothing;
    if state.focused {
        match ev {
            WindowEvent::MouseMoved(x, y) => {
                if x != middle_x || y != middle_y {
                    action = Action::Turn(x, y);
                } else {
                    action = Action::SetLast(x, y);
                }
            },
            WindowEvent::MouseWheel => action = Action::Scroll,
            WindowEvent::MouseInput => action = Action::Button,
            WindowEvent::ReceivedCharacter(ch) => {
                if ch == 'r' {
                    action = Action::Reload;
                } else if ch == 'q' {
                    state.running = false;
                }
            },
            _ => {},
        }
    }
    (state, action)
}

/// The control state after a sequence of events.
pub open spec fn run_events(c: Control, evs: Seq<WindowEvent>) -> Control
    decreases evs.len(),
{
    if evs.len() == 0 {
        c
    } else {
        run_events(spec_control(c, evs[0]), evs.drop_first())
    }
}

/// Once the viewer has stopped, no sequence of events starts it again.
pub proof fn law_stopped_stays_stopped(c: Control, evs: Seq<WindowEvent>)
    requires
        !c.running,
    ensures
        !run_events(c, evs).running,
    decreases evs.len(),
{
    if evs.len() > 0 {
        law_stopped_stays_stopped(spec_control(c, evs[0]), evs.drop_first());
    }
}

/// Closing the window stops the viewer, whatever comes after it.
pub proof fn law_close_stops(c: Control, evs: Seq<WindowEvent>)
    requires
        evs.len() > 0,
        evs[0] == WindowEvent::Closed,
    ensures
        !run_events(c, evs).running,
{
    law_stopped_stays_stopped(spec_control(c, evs[0]), evs.drop_first());
}

/// The focus follows the last focus event; other events leave it alone.
pub proof fn law_focus_follows_last(c: Control, evs: Seq<WindowEvent>, f: bool)
    requires
        evs.len() > 0,
        evs.last() == WindowEvent::Focused(f),
    ensures
        run_events(c, evs).focused == f,
    decreases evs.len(),
{
    if evs.len() > 1 {
        assert(evs.drop_first().last() == evs.last());
        law_focus_follows_last(spec_control(c, evs[0]), evs.drop_first(), f);
    } else {
        assert(evs[0] == evs.last());
        assert(run_events(spec_control(c, evs[0]), evs.drop_first()) == spec_control(c, evs[0]));
    }
}

/// Without the focus, no event but a focus event leads to an action.
pub proof fn law_unfocused_ignores(c: Control, ev: WindowEvent, middle_x: i32, middle_y: i32)
    requires
        !c.focused,
        !(ev is Focused),
    ensures
        spec_action(c, ev, middle_x, middle_y) == Action::Nothing,
        spec_control(c, ev).running == (c.running && ev != WindowEvent::Closed),
{
}

/// Whether the window has the focus while event `i` of `evs` is handled
/// (after that event's own change of focus).
pub open spec fn focus_at(c: Control, evs: Seq<WindowEvent>, i: int) -> bool {
    spec_focus(run_events(c, evs.take(i)).focused, evs[i])
}

proof fn lemma_run_step(c: Control, evs: Seq<WindowEvent>, i: int)
    requires
        0 <= i < evs.len() - 1,
    ensures
        focus_at(c, evs, i + 1) == focus_at(spec_control(c, evs[0]), evs.drop_first(), i),
{
    assert(evs.take(i + 1).drop_first() =~= evs.drop_first().take(i));
    assert(evs.take(i + 1)[0] == evs[0]);
    assert(evs[i + 1] == evs.drop_first()[i]);
}

/// After a run of events the viewer is running exactly when it was running
/// before, no `Closed` event came, and no `q` came while the window had the
/// focus.
pub proof fn law_run_running(c: Control, evs: Seq<WindowEvent>)
    ensures
        run_events(c, evs).running == (c.running && forall|i: int|
            0 <= i < evs.len() ==> #[trigger] evs[i] != WindowEvent::Closed && !(focus_at(
                c,
                evs,
                i,
            ) && evs[i] == WindowEvent::ReceivedCharacter('q'))),
    decreases evs.len(),
{
    if evs.len() > 0 {
        let c1 = spec_control(c, evs[0]);
        let rest = evs.drop_first();
        law_run_running(c1, rest);
        assert(evs.take(0) =~= Seq::<WindowEvent>::empty());
        assert(run_events(c, evs.take(0)) == c);
        let all = forall|i: int|
            0 <= i < evs.len() ==> #[trigger] evs[i] != WindowEvent::Closed && !(focus_at(
                c,
                evs,
                i,
            ) && evs[i] == WindowEvent::ReceivedCharacter('q'));
        let all_rest = forall|i: int|
            0 <= i < rest.len() ==> #[trigger] rest[i] != WindowEvent::Closed && !(focus_at(
                c1,
                rest,
                i,
            ) && rest[i] == WindowEvent::ReceivedCharacter('q'));
        assert forall|i: int| 0 <= i < rest.len() implies (#[trigger] rest[i] != WindowEvent::Closed
            && !(focus_at(c1, rest, i) && rest[i] == WindowEvent::ReceivedCharacter('q'))) == (evs[i
            + 1] != WindowEvent::Closed && !(focus_at(c, evs, i + 1) && evs[i + 1]
            == WindowEvent::ReceivedCharacter('q'))) by {
            lemma_run_step(c, evs, i);
        }
        if all {
            assert forall|i: int| 0 <= i < rest.len() implies #[trigger] rest[i]
                != WindowEvent::Closed && !(focus_at(c1, rest, i) && rest[i]
                == WindowEvent::ReceivedCharacter('q')) by {
                assert(evs[i + 1] != WindowEvent::Closed && !(focus_at(c, evs, i + 1) && evs[i
                    + 1] == WindowEvent::ReceivedCharacter('q')));
            }
        }
        if all_rest && c1.running {
            assert forall|i: int| 0 <= i < evs.len() implies #[trigger] evs[i]
                != WindowEvent::Closed && !(focus_at(c, evs, i) && evs[i]
                == WindowEvent::ReceivedCharacter('q')) by {
                if i > 0 {
                    assert(rest[i - 1] != WindowEvent::Closed && !(focus_at(c1, rest, i - 1)
                        && rest[i - 1] == WindowEvent::ReceivedCharacter('q')));
                }
            }
        }
        if !c1.running {
            law_stopped_stays_stopped(c1, rest);
        }
    }
}

/// After a run of events the focus is the one given by the last focus event,
/// or, when there is none, the focus before the run.
pub proof fn law_run_focus(c: Control, evs: Seq<WindowEvent>)
    ensures
        (forall|i: int| 0 <= i < evs.len() ==> !(#[trigger] evs[i] is Focused)) ==> run_events(
            c,
            evs,
        ).focused == c.focused,
        forall|j: int|
            0 <= j < evs.len() && #[trigger] evs[j] is Focused && (forall|i: int|
                j < i < evs.len() ==> !(#[trigger] evs[i] is Focused)) ==> run_events(c, evs).focused
                == evs[j]->Focused_0,
    decreases evs.len(),
{
    if evs.len() > 0 {
        let c1 = spec_control(c, evs[0]);
        let rest = evs.drop_first();
        law_run_focus(c1, rest);
        assert forall|j: int|
            0 <= j < evs.len() && #[trigger] evs[j] is Focused && (forall|i: int|
                j < i < evs.len() ==> !(#[trigger] evs[i] is Focused)) implies run_events(
            c,
            evs,
        ).focused == evs[j]->Focused_0 by {
            if j > 0 {
                assert(rest[j - 1] == evs[j]);
                assert forall|i: int| j - 1 < i < rest.len() implies !(#[trigger] rest[i] is Focused) by {
                    assert(rest[i] == evs[i + 1]);
                }
            } else {
                assert forall|i: int| 0 <= i < rest.len() implies !(#[trigger] rest[i] is Focused) by {
                    assert(rest[i] == evs[i + 1]);
                }
            }
        }
        if forall|i: int| 0 <= i < evs.len() ==> !(#[trigger] evs[i] is Focused) {
            assert forall|i: int| 0 <= i < rest.len() implies !(#[trigger] rest[i] is Focused) by {
                assert(rest[i] == evs[i + 1]);
            }
        }
    }
}

/// While the window has the focus, a move of the mouse to anywhere but the
/// middle of the window turns the view by that move, and a move to the
/// middle only records the position; a move never changes the control state.
pub proof fn law_mouse_move(c: Control, x: i32, y: i32, middle_x: i32, middle_y: i32)
    requires
        c.focused,
    ensures
        (x != middle_x || y != middle_y) ==> spec_action(c, WindowEvent::MouseMoved(x, y), middle_x, middle_y)
            == Action::Turn(x, y),
        (x == middle_x && y == middle_y) ==> spec_action(c, WindowEvent::MouseMoved(x, y), middle_x, middle_y)
            == Action::SetLast(x, y),
        spec_control(c, WindowEvent::MouseMoved(x, y)) == c,
{
}

/// While the window has the focus, `r` reloads the grammar, `q` stops the
/// viewer, the wheel scrolls and a button is passed on.
pub proof fn law_focused_keys(c: Control, middle_x: i32, middle_y: i32)
    requires
        c.focused,
    ensures
        spec_action(c, WindowEvent::ReceivedCharacter('r'), middle_x, middle_y) == Action::Reload,
        spec_control(c, WindowEvent::ReceivedCharacter('r')) == c,
        spec_control(c, WindowEvent::ReceivedCharacter('q')) == (Control { focused: true, running: false }),
        spec_action(c, WindowEvent::MouseWheel, middle_x, middle_y) == Action::Scroll,
        spec_action(c, WindowEvent::MouseInput, middle_x, middle_y) == Action::Button,
{
}

} // verus!
