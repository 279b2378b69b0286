use shape_grammar::events::{handle_event, Action, Control, WindowEvent};

const ON: Control = Control { focused: true, running: true };

#[test]
fn closing_stops() {
    let (c, a) = handle_event(ON, WindowEvent::Closed, 100, 100);
    assert_eq!(c, Control { focused: true, running: false });
    assert_eq!(a, Action::Nothing);
}

#[test]
fn mouse_moves_turn_or_set_last() {
    assert_eq!(handle_event(ON, WindowEvent::MouseMoved(10, 20), 100, 100), (ON, Action::Turn(10, 20)));
    assert_eq!(handle_event(ON, WindowEvent::MouseMoved(100, 100), 100, 100), (ON, Action::SetLast(100, 100)));
}

#[test]
fn keys_wheel_and_buttons() {
    assert_eq!(handle_event(ON, WindowEvent::ReceivedCharacter('r'), 0, 0), (ON, Action::Reload));
    assert_eq!(
        handle_event(ON, WindowEvent::ReceivedCharacter('q'), 0, 0),
        (Control { focused: true, running: false }, Action::Nothing)
    );
    assert_eq!(handle_event(ON, WindowEvent::ReceivedCharacter('x'), 0, 0), (ON, Action::Nothing));
    assert_eq!(handle_event(ON, WindowEvent::MouseWheel, 0, 0), (ON, Action::Scroll));
    assert_eq!(handle_event(ON, WindowEvent::MouseInput, 0, 0), (ON, Action::Button));
    assert_eq!(handle_event(ON, WindowEvent::Other, 0, 0), (ON, Action::Nothing));
}

#[test]
fn focus_gates_actions() {
    let off = Control { focused: false, running: true };
    assert_eq!(handle_event(ON, WindowEvent::Focused(false), 0, 0), (off, Action::Nothing));
    assert_eq!(handle_event(off, WindowEvent::ReceivedCharacter('q'), 0, 0), (off, Action::Nothing));
    assert_eq!(handle_event(off, WindowEvent::MouseMoved(1, 2), 0, 0), (off, Action::Nothing));
    assert_eq!(handle_event(off, WindowEvent::Focused(true), 0, 0), (ON, Action::Nothing));
}

#[test]
fn stopped_stays_stopped_example() {
    let mut c = Control { focused: true, running: false };
    for ev in [WindowEvent::Focused(true), WindowEvent::ReceivedCharacter('r'), WindowEvent::MouseMoved(1, 1), WindowEvent::Other] {
        c = handle_event(c, ev, 0, 0).0;
        assert!(!c.running);
    }
}

fn run(c: Control, evs: &[WindowEvent]) -> Control {
    evs.iter().fold(c, |c, ev| handle_event(c, *ev, 0, 0).0)
}

#[test]
fn runs_of_events() {
    // 'q' while unfocused does not stop; the focus follows the last focus event
    let c = run(ON, &[WindowEvent::Focused(false), WindowEvent::ReceivedCharacter('q'), WindowEvent::Focused(true), WindowEvent::MouseWheel]);
    assert_eq!(c, ON);
    // 'q' while focused stops
    let c = run(ON, &[WindowEvent::MouseWheel, WindowEvent::ReceivedCharacter('q'), WindowEvent::Focused(false)]);
    assert_eq!(c, Control { focused: false, running: false });
    // closing stops, wherever it comes
    let c = run(ON, &[WindowEvent::Focused(false), WindowEvent::Other, WindowEvent::Closed, WindowEvent::Focused(true)]);
    assert_eq!(c, Control { focused: true, running: false });
}
