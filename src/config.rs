use vstd::prelude::*;

verus! {

/// The preset scenes.
#[derive(Clone, Copy, Debug, PartialEq, Eq, Structural)]
pub enum Scene {
    Random,
    TwoSpheres,
    TwoPerlinSpheres,
    Earth,
    SimpleLight,
    Cornell,
    CornellSmoke,
    Final,
}

/// What a render is asked to do: frame size, samples per pixel, bounce
/// budget, tile side and scene.
#[derive(Clone, Copy, Debug, PartialEq, Eq, Structural)]
pub struct RenderConfig {
    pub width: u32,
    pub height: u32,
    pub samples: u32,
    pub depth: u32,
    pub tile_size: u32,
    pub scene: Scene,
}

impl Default for RenderConfig {
    fn default() -> (r: RenderConfig)
        ensures
            r == (RenderConfig {
                width: 1280,
                height: 720,
                samples: 100,
                depth: 10,
                tile_size: 80,
                scene: Scene::Random,
            }),
    {
        RenderConfig { width: 1280, height: 720, samples: 100, depth: 10, tile_size: 80, scene: Scene::Random }
    }
}

} // verus!
