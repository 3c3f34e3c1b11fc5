//! The events that handlers can be attached to.

use vstd::prelude::*;

verus! {

/// Event handler kinds.
#[derive(PartialEq, Eq, Structural, Clone, Copy, Debug)]
pub enum Event {
    Blur,
    Change,
    Click,
    ContextMenu,
    DblClick,
    Focus,
    FocusIn,
    FocusOut,
    Hover,
    KeyDown,
    KeyPress,
    KeyUp,
    Load,
    MouseDown,
    MouseEnter,
    MouseLeave,
    MouseMove,
    MouseOut,
    MouseOver,
    MouseUp,
    Ready,
    Resize,
    Scroll,
    Select,
    Submit,
}

impl Event {
    /// Whether a handler can be attached for this event: every event but
    /// `FocusIn`, `FocusOut`, `Hover` and `Ready`.
    pub fn is_implemented(&self) -> (r: bool)
        ensures
            r == !(*self == Event::FocusIn || *self == Event::FocusOut || *self == Event::Hover
                || *self == Event::Ready),
    {
        !matches!(*self, Event::FocusIn | Event::FocusOut | Event::Hover | Event::Ready)
    }
}

} // verus!
