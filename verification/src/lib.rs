//! Grid placement rules and turn resolution for a small hex-offset city
//! builder. Every function here carries a contract that Verus proves, but
//! for the few in `random` and `path` that wrap a call into another crate:
//! those say in their comments what they take on trust.

pub mod adjacency;
pub mod agree;
pub mod asset;
pub mod count;
pub mod drop;
pub mod grid;
pub mod guard;
pub mod kind;
pub mod legal;
pub mod level;
pub mod object;
pub mod path;
pub mod random;
pub mod render;
pub mod rules;
pub mod tile;
pub mod turn;
pub mod ufo;
pub mod win;
pub mod world;
