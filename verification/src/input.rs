//! Client-side input capture: mapping the current state of the four
//! directional keys to the movement intent this tick transmits, if any.

use vstd::prelude::*;
use crate::components::MoveEvent;

verus! {

/// The intent a key state maps to. Each key's mapping is applied in a fixed
/// order and the last assignment wins: the back key overrides the forward
/// key, and the right key overrides the left key.
pub open spec fn intent_of_keys(
    forward_key: bool,
    back_key: bool,
    left_key: bool,
    right_key: bool,
) -> MoveEvent {
    MoveEvent {
        forward: if back_key {
            -1i8
        } else if forward_key {
            1i8
        } else {
            0i8
        },
        right: if right_key {
            1i8
        } else if left_key {
            -1i8
        } else {
            0i8
        },
    }
}

/// Reads one tick's key state and yields the intent to transmit: `None` on
/// an all-neutral tick, so that nothing floods the transport with zero
/// vectors, and otherwise exactly the intent the mapping gives, each
/// component in {-1, 0, +1}.
pub fn send_move_event(
    forward_key: bool,
    back_key: bool,
    left_key: bool,
    right_key: bool,
) -> (r: Option<MoveEvent>)
    ensures
        r is Some <==> (forward_key || back_key || left_key || right_key),
        r is Some ==> r == Some(intent_of_keys(forward_key, back_key, left_key, right_key)),
{
    let mut event = MoveEvent::default();
    let mut send_something = false;
    if forward_key {
        event.forward = 1;
        send_something = true;
    }
    if back_key {
        event.forward = -1;
        send_something = true;
    }
    if left_key {
        event.right = -1;
        send_something = true;
    }
    if right_key {
        event.right = 1;
        send_something = true;
    }
    if send_something {
        Some(event)
    } else {
        None
    }
}

} // verus!
