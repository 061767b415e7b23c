//! Winning a level.

use vstd::prelude::*;
use crate::grid::Cell;
use crate::level::{Score, TurnCounter};
use crate::turn::PlayerWinEvent;

verus! {

/// The bonus for a level won without taking a turn.
pub const MAXIMUM_TURN_POINT: usize = 10;

/// The points that a level won after `turns` turns is worth: one less
/// for every turn taken, and never less than one.
pub open spec fn win_bonus(turns: int) -> int {
    if MAXIMUM_TURN_POINT - turns <= 0 {
        1
    } else {
        MAXIMUM_TURN_POINT - turns
    }
}

/// The level is won. Unless the win is being shown already, the bonus
/// goes to the score, and the way of the king is handed out from its end
/// to its start, to be shown cell by cell.
pub fn handle_player_win_event(
    score: &mut Score,
    turn_counter: &TurnCounter,
    showing: bool,
    event: &PlayerWinEvent,
) -> (path: Option<Vec<Cell>>)
    requires
        old(score).current + MAXIMUM_TURN_POINT <= usize::MAX,
    ensures
        final(score).previous == old(score).previous,
        showing ==> path is None && final(score).current == old(score).current,
        !showing ==> final(score).current == old(score).current + win_bonus(
            turn_counter.turn as int,
        ),
        !showing ==> (path matches Some(cells) && cells@ == event.path@.reverse()),
{
    if showing {
        return None;
    }
    let bonus: usize = if turn_counter.turn >= MAXIMUM_TURN_POINT {
        1
    } else {
        MAXIMUM_TURN_POINT - turn_counter.turn
    };
    score.current = score.current + bonus;
    let mut cells: Vec<Cell> = Vec::new();
    let mut k: usize = event.path.len();
    while k > 0
        invariant
            k <= event.path@.len(),
            cells@.len() == event.path@.len() - k,
            forall|j: int|
                0 <= j < cells@.len() ==> cells@[j] == event.path@[event.path@.len() - 1 - j],
        decreases k,
    {
        k = k - 1;
        cells.push(event.path[k]);
    }
    proof {
        assert(cells@ =~= event.path@.reverse());
    }
    Some(cells)
}

} // verus!
