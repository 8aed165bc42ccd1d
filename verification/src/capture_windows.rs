//! What the library has to say about the window and the pointer: where a
//! window is found is left to the caller, what is sent to the pointer is
//! worked out here.

use vstd::prelude::*;
use crate::img::Rectangle;

verus! {

/// The width of the screen that pointer positions refer to, in pixels.
pub const SCREEN_WIDTH: usize = 3840;

/// The height of that screen.
pub const SCREEN_HEIGHT: usize = 2160;

/// The largest coordinate of the pointer's absolute scale.
pub const ABSOLUTE_MAX: usize = 65535;

/// Finds a window by its title and says where on the screen it lies.
pub trait FindWindow {
    fn find_window(window_name: &str) -> Option<Rectangle<usize>>;
}

/// Something to do with the pointer.
#[derive(Clone, Copy, Debug, PartialEq, Eq)]
pub enum MouseAction {
    Move { x: usize, y: usize },
    Press,
    Release,
}

/// A pixel coordinate on the pointer's absolute scale, on which the
/// screen's extent is `ABSOLUTE_MAX`.
pub open spec fn scaled(pixel: usize, extent: usize) -> int {
    pixel * ABSOLUTE_MAX / (extent as int)
}

impl MouseAction {
    /// The position that goes out with the action, on the absolute scale:
    /// where to move to, and nothing for a press or a release.
    pub fn absolute(&self) -> (r: (i32, i32))
        requires
            *self matches MouseAction::Move { x, y } ==> x * ABSOLUTE_MAX <= usize::MAX && y
                * ABSOLUTE_MAX <= usize::MAX && scaled(x, SCREEN_WIDTH) <= i32::MAX && scaled(
                y,
                SCREEN_HEIGHT,
            ) <= i32::MAX,
        ensures
            match *self {
                MouseAction::Move { x, y } => r.0 == scaled(x, SCREEN_WIDTH) && r.1 == scaled(
                    y,
                    SCREEN_HEIGHT,
                ),
                _ => r == (0i32, 0i32),
            },
    {
        match self {
            MouseAction::Move { x, y } => (
                (*x * ABSOLUTE_MAX / SCREEN_WIDTH) as i32,
                (*y * ABSOLUTE_MAX / SCREEN_HEIGHT) as i32,
            ),
            _ => (0, 0),
        }
    }
}

/// The action that moves the pointer to the screen pixel `(x, y)`.
pub fn mouse_move(x: usize, y: usize) -> (a: MouseAction)
    ensures
        a == (MouseAction::Move { x, y }),
{
    MouseAction::Move { x, y }
}

/// The action that presses the left button.
pub fn mouse_press() -> (a: MouseAction)
    ensures
        a == MouseAction::Press,
{
    MouseAction::Press
}

/// The action that releases the left button.
pub fn mouse_release() -> (a: MouseAction)
    ensures
        a == MouseAction::Release,
{
    MouseAction::Release
}

} // verus!
