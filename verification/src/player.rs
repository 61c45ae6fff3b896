use vstd::prelude::*;

verus! {

/// Which way the player means to turn and walk this frame, from the keys
/// held: turning is `+1` right (D), `-1` left (A), `0` for both or neither;
/// walking is `+1` forward (W), `-1` back (S), `0` for both or neither.
pub fn movement_intent(turn_left: bool, turn_right: bool, forward: bool, backward: bool) -> (intent: (i32, i32))
    ensures
        intent.0 == (if turn_right { 1int } else { 0int }) - (if turn_left { 1int } else { 0int }),
        intent.1 == (if forward { 1int } else { 0int }) - (if backward { 1int } else { 0int }),
{
    let mut turn: i32 = 0;
    let mut walk: i32 = 0;
    if turn_left {
        turn = turn - 1;
    }
    if turn_right {
        turn = turn + 1;
    }
    if forward {
        walk = walk + 1;
    }
    if backward {
        walk = walk - 1;
    }
    (turn, walk)
}

} // verus!
