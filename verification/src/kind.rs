//! The kinds of object.

use vstd::prelude::*;

verus! {

/// What an object on the board is. Creatures act once per turn; buildings
/// stay where the carrier drops them.
#[derive(Debug, Clone, Copy, PartialEq, Eq, Hash, Structural)]
pub enum ObjectID {
    King,
    Villager,
    Cow,
    Assassin,
    Castle,
    Mountain,
    Field,
    House,
    BigHouse,
    Farm,
    Tower,
    Church,
    Tavern,
}

} // verus!
