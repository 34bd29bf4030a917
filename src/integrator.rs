use vstd::prelude::*;

verus! {

/// What a traced ray met in the scene.
#[derive(Clone, Copy, Debug, PartialEq, Eq, Structural)]
pub enum SurfaceEvent {
    /// Nothing was hit.
    Miss,
    /// A surface was hit and its material did not scatter the ray.
    Absorbed,
    /// A surface was hit and its material scattered the ray.
    Scattered,
}

/// How the colour of a ray is made up.
#[derive(Clone, Copy, Debug, PartialEq, Eq, Structural)]
pub enum PathStep {
    /// Black: the bounce budget is spent.
    Black,
    /// The background colour.
    Background,
    /// The light emitted at the hit point, and nothing more.
    Emitted,
    /// The light emitted at the hit point plus the attenuated colour of the
    /// scattered ray, traced with `depth` bounces left.
    Bounce { depth: u32 },
}

/// The step the integrator takes for a ray with `depth` bounces left.
pub open spec fn spec_path_step(depth: u32, event: SurfaceEvent) -> PathStep {
    if depth == 0 {
        PathStep::Black
    } else {
        match event {
            SurfaceEvent::Miss => PathStep::Background,
            SurfaceEvent::Absorbed => PathStep::Emitted,
            SurfaceEvent::Scattered => PathStep::Bounce { depth: (depth - 1) as u32 },
        }
    }
}

/// Whether a ray with `depth` bounces left is traced at all: once the
/// budget is spent its colour is black whatever it would meet.
pub fn traces(depth: u32) -> (r: bool)
    ensures
        r == (depth > 0),
        !r ==> forall|e: SurfaceEvent| spec_path_step(depth, e) == PathStep::Black,
{
    depth > 0
}

/// The step for a ray with `depth` bounces left that met `event`.
pub fn path_step(depth: u32, event: SurfaceEvent) -> (r: PathStep)
    ensures
        r == spec_path_step(depth, event),
        depth == 0 ==> r == PathStep::Black,
        r matches PathStep::Bounce { depth: d } ==> d < depth,
{
    if depth == 0 {
        return PathStep::Black;
    }
    match event {
        SurfaceEvent::Miss => PathStep::Background,
        SurfaceEvent::Absorbed => PathStep::Emitted,
        SurfaceEvent::Scattered => PathStep::Bounce { depth: depth - 1 },
    }
}

} // verus!
