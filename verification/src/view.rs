//! Input vocabulary of the root view, and which snapshots it takes in.
use vstd::prelude::*;
use crate::model::Tick;

verus! {

#[derive(Debug, Clone, Copy, PartialEq, Eq, Structural)]
pub enum MouseButton {
    Left,
    Right,
}

#[derive(Debug, Clone, Copy, PartialEq, Eq, Structural)]
pub enum Key {
    Up,
    Down,
    PageUp,
    PageDown,
    Home,
    End,
}

/// Whether the view takes in an offered snapshot (and repaints): never an
/// empty one; otherwise when the view shows nothing yet or the tick differs
/// from the one it shows.
pub fn accepts_snapshot(new_empty: bool, new_tick: Tick, cur_empty: bool, cur_tick: Tick) -> (r: bool)
    ensures
        r == (!new_empty && (cur_empty || new_tick.0 != cur_tick.0)),
{
    !new_empty && (cur_empty || new_tick.0 != cur_tick.0)
}

} // verus!
