use crate::protocol::packets::input::InputMap;
use vstd::prelude::*;

verus! {

/// The directions held, from the state of the movement keys: W or Up, S or
/// Down, A or Left, D or Right.
pub fn get_input_map(
    w: bool,
    up: bool,
    s: bool,
    down: bool,
    a: bool,
    left: bool,
    d: bool,
    right: bool,
) -> (r: InputMap)
    ensures
        r == (InputMap { up: w || up, down: s || down, left: a || left, right: d || right }),
{
    let mut input_map = InputMap::zero();
    if w || up {
        input_map.up = true;
    }
    if s || down {
        input_map.down = true;
    }
    if a || left {
        input_map.left = true;
    }
    if d || right {
        input_map.right = true;
    }
    input_map
}

/// The unit steps of the direction a player moves in, before it is scaled
/// to length one: up and left count negative, down and right positive, and
/// opposite keys cancel.
pub fn input_direction(input_map: &InputMap) -> (r: (i32, i32))
    ensures
        r.0 == (if input_map.right { 1int } else { 0 }) - (if input_map.left { 1int } else { 0 }),
        r.1 == (if input_map.down { 1int } else { 0 }) - (if input_map.up { 1int } else { 0 }),
{
    let mut x: i32 = 0;
    let mut y: i32 = 0;
    if input_map.up {
        y -= 1;
    }
    if input_map.down {
        y += 1;
    }
    if input_map.left {
        x -= 1;
    }
    if input_map.right {
        x += 1;
    }
    (x, y)
}

} // verus!
