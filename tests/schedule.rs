use hyper_ray_tracer::schedule::{tile_seed, FrameSchedule};
use hyper_ray_tracer::tiles::TileRect;

#[test]
fn jobs_cover_every_tile_once() {
    let s = FrameSchedule::new(100, 50, 40).unwrap();
    let jobs = s.jobs();
    assert_eq!(jobs.len(), 6);
    for (k, job) in jobs.iter().enumerate() {
        assert_eq!(job.index, k as u64);
        assert_eq!(job.generation, 0);
        assert_eq!(job.seed, k as u64);
    }
    assert_eq!(jobs[5].rect, TileRect { x: 80, y: 40, width: 20, height: 10 });
}

#[test]
fn counter_reaches_total_exactly_once() {
    let mut s = FrameSchedule::new(100, 50, 40).unwrap();
    let arrivals: [u64; 9] = [3, 0, 3, 5, 1, 7, 4, 2, 0];
    let mut reached = 0;
    for &i in arrivals.iter() {
        let before = s.completed();
        s.accept(0, i);
        if before < 6 && s.completed() == 6 {
            reached += 1;
        }
    }
    assert_eq!(s.completed(), 6);
    assert_eq!(reached, 1);
}

#[test]
fn completion_is_reported_once() {
    let mut s = FrameSchedule::new(64, 36, 16).unwrap();
    let n = s.grid().tile_count();
    assert_eq!(n, 12);
    for i in 0..n {
        assert!(!s.poll_complete());
        assert!(s.accept(0, i));
    }
    assert!(s.is_complete());
    assert!(s.poll_complete());
    assert!(!s.poll_complete());
    assert!(!s.poll_complete());
}

#[test]
fn repeated_tile_is_not_counted() {
    let mut s = FrameSchedule::new(64, 36, 16).unwrap();
    assert!(s.accept(0, 2));
    assert!(!s.accept(0, 2));
    assert_eq!(s.completed(), 1);
}

#[test]
fn tile_outside_the_frame_is_refused() {
    let mut s = FrameSchedule::new(64, 36, 16).unwrap();
    assert!(!s.accept(0, 12));
    assert!(!s.accept(0, u64::MAX));
    assert_eq!(s.completed(), 0);
}

#[test]
fn stale_tiles_are_refused_after_restart() {
    let mut s = FrameSchedule::new(64, 36, 16).unwrap();
    assert!(s.accept(0, 0));
    s.restart(32, 32);
    assert_eq!(s.generation(), 1);
    assert_eq!(s.completed(), 0);
    assert_eq!(s.grid().tile_count(), 4);
    assert!(!s.accept(0, 1));
    assert!(s.accept(1, 1));
    assert_eq!(s.completed(), 1);
    let jobs = s.jobs();
    assert_eq!(jobs.len(), 4);
    assert_eq!(jobs[3].generation, 1);
    assert_eq!(jobs[3].seed, 3 + (1u64 << 32));
}

#[test]
fn restart_clears_the_report() {
    let mut s = FrameSchedule::new(16, 16, 16).unwrap();
    assert!(s.accept(0, 0));
    assert!(s.poll_complete());
    s.restart(16, 16);
    assert!(!s.poll_complete());
    assert!(s.accept(1, 0));
    assert!(s.poll_complete());
}

#[test]
fn empty_frame_is_complete_at_once() {
    let mut s = FrameSchedule::new(0, 0, 8).unwrap();
    assert!(s.jobs().is_empty());
    assert!(s.poll_complete());
    assert!(!s.poll_complete());
}

#[test]
fn zero_tile_size_schedule_is_refused() {
    assert!(FrameSchedule::new(64, 36, 0).is_none());
}

#[test]
fn seeds_combine_frame_and_tile() {
    assert_eq!(tile_seed(0, 7), 7);
    assert_eq!(tile_seed(1, 5), 4294967301);
    assert_eq!(tile_seed(u32::MAX, u64::MAX), 18446744069414584319);
}
