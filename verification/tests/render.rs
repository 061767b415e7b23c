use alien_architect::render::{RenderLayer, RENDER_LAYER};

#[test]
fn layers_are_a_hundred_apart() {
    assert_eq!(RENDER_LAYER, [0, 100, 200, 300, 400]);
    assert_eq!(RenderLayer::Tile.index(), 0);
    assert_eq!(RenderLayer::Entity.index(), 1);
    assert_eq!(RenderLayer::UFO.index(), 2);
    assert_eq!(RenderLayer::UI.index(), 3);
    assert_eq!(RenderLayer::Overlay.index(), 4);
    assert_eq!(RenderLayer::Tile.base(), 0);
    assert_eq!(RenderLayer::Entity.base(), 100);
    assert_eq!(RenderLayer::UFO.base(), 200);
    assert_eq!(RenderLayer::UI.base(), 300);
    assert_eq!(RenderLayer::Overlay.base(), 400);
}

#[test]
fn depth_adds_the_order_to_the_layer() {
    assert_eq!(RenderLayer::Entity.depth(45), 145);
    assert_eq!(RenderLayer::Tile.depth(1), 1);
    assert_eq!(RenderLayer::Overlay.depth(u32::MAX), 400 + u32::MAX as u64);
}
