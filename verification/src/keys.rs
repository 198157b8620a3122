//! Key messages from the player to the interface.

use vstd::prelude::*;
use crate::position::Pos;

verus! {

/// A message derived from one key press.
#[derive(PartialEq, Eq, Clone, Copy, Debug)]
pub enum KeyMessage {
    /// Move the camera by the given offset.
    MoveCam(Pos),
    /// Stop the interface.
    Exit,
}

/// Decides what a pressed character key means: `=` (ASCII 61) ends the
/// session; `w` (119), `s` (115), `d` (100) and `a` (97) move the camera
/// one step up, down, right and left.  Reading the key press and
/// delivering the message belong to the surrounding interface, not
/// here.
pub fn handle(key: u8) -> (r: Option<KeyMessage>)
    ensures
        key == 61 ==> r == Some(KeyMessage::Exit),
        key == 119 ==> r == Some(KeyMessage::MoveCam((Pos { x: 0, y: -1i32 }))),
        key == 115 ==> r == Some(KeyMessage::MoveCam((Pos { x: 0, y: 1 }))),
        key == 100 ==> r == Some(KeyMessage::MoveCam((Pos { x: 1, y: 0 }))),
        key == 97 ==> r == Some(KeyMessage::MoveCam((Pos { x: -1i32, y: 0 }))),
        key != 61 && key != 119 && key != 115 && key != 100 && key != 97 ==> r is None,
{
    if key == 61 {
        Some(KeyMessage::Exit)
    } else if key == 119 {
        Some(KeyMessage::MoveCam(Pos::new(0, -1)))
    } else if key == 115 {
        Some(KeyMessage::MoveCam(Pos::new(0, 1)))
    } else if key == 100 {
        Some(KeyMessage::MoveCam(Pos::new(1, 0)))
    } else if key == 97 {
        Some(KeyMessage::MoveCam(Pos::new(-1, 0)))
    } else {
        None
    }
}

} // verus!
