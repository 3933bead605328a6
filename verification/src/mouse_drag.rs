//! Tracking a mouse drag that pans the picture.
use vstd::prelude::*;

verus! {

/// Where a mouse drag stands.
#[derive(Debug, Clone, Copy, PartialEq, Eq)]
pub enum MouseDragState {
    Init,
    Dragging { drag_start: (i32, i32), offset: (i32, i32) },
    Released { offset: (i32, i32) },
}

/// The offset from `start` to `pos`.
pub open spec fn drag_offset(start: (i32, i32), pos: (i32, i32)) -> (int, int) {
    (pos.0 - start.0, pos.1 - start.1)
}

impl MouseDragState {
    /// No drag is going on.
    pub fn new() -> (r: Self)
        ensures
            r == MouseDragState::Init,
    {
        MouseDragState::Init
    }

    /// The state after one round of input: `mouse_pos` is the pointer's position in picture
    /// pixels, `None` when it is outside the window, and `pressed`, `held` and `released` say
    /// what the left button did. A press starts a drag at the pointer; while the button is held
    /// the drag follows the pointer; releasing it, or leaving the window, ends the drag with
    /// its last offset; an ended drag lasts one round.
    pub fn update(self, mouse_pos: Option<(i32, i32)>, pressed: bool, held: bool, released: bool) -> (r: Self)
        requires
            self matches MouseDragState::Dragging { drag_start, .. } ==> (mouse_pos matches Some(pos)
                ==> (held || released) ==> {
                let (dx, dy) = drag_offset(drag_start, pos);
                &&& i32::MIN <= dx <= i32::MAX
                &&& i32::MIN <= dy <= i32::MAX
            }),
        ensures
            mouse_pos matches Some(pos) ==> (pressed ==> r == (MouseDragState::Dragging {
                drag_start: pos,
                offset: (0, 0),
            })),
            !(mouse_pos is Some && pressed) ==> match (self, mouse_pos) {
                (MouseDragState::Dragging { drag_start, .. }, Some(pos)) => {
                    if held {
                        r matches MouseDragState::Dragging { drag_start: s, offset } && s == drag_start
                            && offset.0 == drag_offset(drag_start, pos).0 && offset.1 == drag_offset(
                            drag_start,
                            pos,
                        ).1
                    } else if released {
                        r matches MouseDragState::Released { offset } && offset.0 == drag_offset(
                            drag_start,
                            pos,
                        ).0 && offset.1 == drag_offset(drag_start, pos).1
                    } else {
                        r == self
                    }
                },
                (MouseDragState::Dragging { offset, .. }, None) => r == (MouseDragState::Released {
                    offset,
                }),
                (MouseDragState::Released { .. }, _) => r == MouseDragState::Init,
                (MouseDragState::Init, _) => r == MouseDragState::Init,
            },
    {
        match (self, mouse_pos) {
            (_, Some((x, y))) if pressed => MouseDragState::Dragging {
                drag_start: (x, y),
                offset: (0, 0),
            },
            (MouseDragState::Dragging { drag_start, .. }, Some((x, y))) if held => {
                MouseDragState::Dragging {
                    drag_start,
                    offset: (x - drag_start.0, y - drag_start.1),
                }
            },
            (MouseDragState::Dragging { drag_start, .. }, Some((x, y))) if released => {
                MouseDragState::Released { offset: (x - drag_start.0, y - drag_start.1) }
            },
            (MouseDragState::Dragging { offset, .. }, None) => MouseDragState::Released { offset },
            (MouseDragState::Released { .. }, _) => MouseDragState::Init,
            (MouseDragState::Init, _) => MouseDragState::Init,
            _ => self,
        }
    }
}

} // verus!
