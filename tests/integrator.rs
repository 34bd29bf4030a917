use hyper_ray_tracer::config::{RenderConfig, Scene};
use hyper_ray_tracer::integrator::{path_step, traces, PathStep, SurfaceEvent};

#[test]
fn spent_budget_is_black_whatever_is_met() {
    assert!(!traces(0));
    assert_eq!(path_step(0, SurfaceEvent::Miss), PathStep::Black);
    assert_eq!(path_step(0, SurfaceEvent::Absorbed), PathStep::Black);
    assert_eq!(path_step(0, SurfaceEvent::Scattered), PathStep::Black);
}

#[test]
fn miss_gives_background() {
    assert!(traces(1));
    assert_eq!(path_step(1, SurfaceEvent::Miss), PathStep::Background);
}

#[test]
fn absorbed_gives_emission() {
    assert_eq!(path_step(4, SurfaceEvent::Absorbed), PathStep::Emitted);
}

#[test]
fn scatter_spends_one_bounce() {
    assert_eq!(path_step(4, SurfaceEvent::Scattered), PathStep::Bounce { depth: 3 });
    assert_eq!(path_step(1, SurfaceEvent::Scattered), PathStep::Bounce { depth: 0 });
    assert_eq!(path_step(u32::MAX, SurfaceEvent::Scattered), PathStep::Bounce { depth: u32::MAX - 1 });
}

#[test]
fn default_config() {
    let c = RenderConfig::default();
    assert_eq!(c.width, 1280);
    assert_eq!(c.height, 720);
    assert_eq!(c.samples, 100);
    assert_eq!(c.depth, 10);
    assert_eq!(c.tile_size, 80);
    assert_eq!(c.scene, Scene::Random);
}
