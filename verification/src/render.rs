//! The layers of the picture and their depths.

use vstd::prelude::*;

verus! {

/// The depth at which each layer starts, back to front.
pub const RENDER_LAYER: [u32; 5] = [0, 100, 200, 300, 400];

/// The layers of the picture, back to front.
#[derive(Debug, Clone, Copy, PartialEq, Eq, Structural)]
pub enum RenderLayer {
    Tile,
    Entity,
    UFO,
    UI,
    Overlay,
}

impl RenderLayer {
    /// Place of the layer in the stack, counted from the back.
    pub open spec fn rank(self) -> int {
        match self {
            RenderLayer::Tile => 0,
            RenderLayer::Entity => 1,
            RenderLayer::UFO => 2,
            RenderLayer::UI => 3,
            RenderLayer::Overlay => 4,
        }
    }

    /// Place of the layer in the stack, counted from the back.
    pub fn index(self) -> (i: usize)
        ensures
            i == self.rank(),
    {
        match self {
            RenderLayer::Tile => 0,
            RenderLayer::Entity => 1,
            RenderLayer::UFO => 2,
            RenderLayer::UI => 3,
            RenderLayer::Overlay => 4,
        }
    }

    /// The depth at which the layer starts: a hundred per rank.
    pub fn base(self) -> (depth: u32)
        ensures
            depth == 100 * self.rank(),
    {
        RENDER_LAYER[self.index()]
    }

    /// The depth of something drawn `order` steps into the layer.
    pub fn depth(self, order: u32) -> (depth: u64)
        ensures
            depth == 100 * self.rank() + order,
    {
        self.base() as u64 + order as u64
    }
}

} // verus!
