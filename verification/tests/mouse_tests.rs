use fractal_worker::mouse_drag::MouseDragState;

#[test]
fn drag_lifecycle() {
    let s = MouseDragState::new();
    assert_eq!(s, MouseDragState::Init);
    let s = s.update(Some((10, 10)), true, true, false);
    assert_eq!(s, MouseDragState::Dragging { drag_start: (10, 10), offset: (0, 0) });
    let s = s.update(Some((13, 8)), false, true, false);
    assert_eq!(s, MouseDragState::Dragging { drag_start: (10, 10), offset: (3, -2) });
    let s = s.update(Some((15, 9)), false, false, true);
    assert_eq!(s, MouseDragState::Released { offset: (5, -1) });
    let s = s.update(Some((15, 9)), false, false, false);
    assert_eq!(s, MouseDragState::Init);
}

#[test]
fn leaving_window_releases_with_last_offset() {
    let s = MouseDragState::Dragging { drag_start: (0, 0), offset: (4, 4) };
    assert_eq!(s.update(None, false, true, false), MouseDragState::Released { offset: (4, 4) });
}

#[test]
fn idle_dragging_and_init_stay() {
    let s = MouseDragState::Dragging { drag_start: (1, 1), offset: (2, 2) };
    assert_eq!(s.update(Some((5, 5)), false, false, false), s);
    assert_eq!(MouseDragState::Init.update(None, false, false, false), MouseDragState::Init);
    assert_eq!(MouseDragState::Init.update(Some((1, 2)), false, true, false), MouseDragState::Init);
}

#[test]
fn press_restarts_drag_from_any_state() {
    let s = MouseDragState::Released { offset: (1, 1) };
    assert_eq!(
        s.update(Some((7, 7)), true, false, false),
        MouseDragState::Dragging { drag_start: (7, 7), offset: (0, 0) }
    );
}
