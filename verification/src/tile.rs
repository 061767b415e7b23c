//! How the tiles of the board are shown.

use vstd::prelude::*;
use crate::grid::Cell;

verus! {

/// How a tile of the board is shown.
#[derive(Debug, Clone, Copy, PartialEq, Eq, Structural)]
pub enum TileState {
    Default,
    Selected,
    Path,
}

/// The tile at `position` is to be shown in `state` from now on.
#[derive(Debug, Clone, Copy, PartialEq, Eq, Structural)]
pub struct TileStateChangeEvent {
    pub position: Cell,
    pub state: TileState,
}

impl TileStateChangeEvent {
    /// The change of the tile at `position` to `state`.
    pub fn new(position: Cell, state: TileState) -> (event: TileStateChangeEvent)
        ensures
            event.position == position,
            event.state == state,
    {
        TileStateChangeEvent { position, state }
    }
}

/// One change to `state` for each of the first `n` of `cells`, in order,
/// leaving out the cell `except`.
pub open spec fn tile_changes(
    cells: Seq<Cell>,
    state: TileState,
    except: Option<Cell>,
    n: nat,
) -> Seq<TileStateChangeEvent>
    decreases n,
{
    if n == 0 {
        Seq::empty()
    } else {
        let rest = tile_changes(cells, state, except, (n - 1) as nat);
        if Some(cells[n - 1]) == except {
            rest
        } else {
            rest.push(TileStateChangeEvent { position: cells[n - 1], state })
        }
    }
}

/// Adds to `events` one change to `state` for each of `cells`, in order,
/// leaving out the cell `except`.
pub fn push_tile_changes(
    events: &mut Vec<TileStateChangeEvent>,
    cells: &Vec<Cell>,
    state: TileState,
    except: Option<Cell>,
)
    ensures
        final(events)@ == old(events)@ + tile_changes(cells@, state, except, cells@.len()),
{
    let mut k: usize = 0;
    while k < cells.len()
        invariant
            k <= cells@.len(),
            events@ == old(events)@ + tile_changes(cells@, state, except, k as nat),
        decreases cells@.len() - k,
    {
        let cell = cells[k];
        let skip = match except {
            Some(other) => other == cell,
            None => false,
        };
        if !skip {
            events.push(TileStateChangeEvent { position: cell, state });
        }
        proof {
            assert(events@ =~= old(events)@ + tile_changes(cells@, state, except, k as nat + 1));
        }
        k = k + 1;
    }
}

} // verus!
