use rayrs::integrator::{PathAction, PathEvent, TestIntegrator};

/// Runs the decisions of one path whose vertices answer `events` in turn.
fn run(depth: i32, events: &[PathEvent]) -> (PathAction, usize) {
    let integrator = TestIntegrator::new();
    let mut action = integrator.first_action(depth);
    let mut traced = 0;
    while let PathAction::Trace { depth: d } = action {
        let event = events[traced];
        traced += 1;
        action = integrator.next_action(d, event);
    }
    (action, traced)
}

#[test]
fn depth_zero_returns_zero() {
    let integrator = TestIntegrator::new();
    assert!(integrator.first_action(0) == PathAction::Zero);
    assert!(integrator.first_action(-4) == PathAction::Zero);
    assert!(run(0, &[]) == (PathAction::Zero, 0));
}

#[test]
fn positive_depth_traces() {
    let integrator = TestIntegrator::new();
    assert!(integrator.first_action(3) == PathAction::Trace { depth: 3 });
}

#[test]
fn miss_shows_background() {
    let integrator = TestIntegrator::new();
    assert!(integrator.next_action(5, PathEvent::Miss) == PathAction::Background);
    assert!(run(1, &[PathEvent::Miss]) == (PathAction::Background, 1));
}

#[test]
fn absorption_ends_with_zero() {
    let integrator = TestIntegrator::new();
    assert!(integrator.next_action(5, PathEvent::Absorbed) == PathAction::Zero);
    assert!(run(4, &[PathEvent::Scattered, PathEvent::Absorbed]) == (PathAction::Zero, 2));
}

#[test]
fn scattering_uses_one_bounce() {
    let integrator = TestIntegrator::new();
    assert!(integrator.next_action(5, PathEvent::Scattered) == PathAction::Trace { depth: 4 });
    assert!(integrator.next_action(1, PathEvent::Scattered) == PathAction::Zero);
}

#[test]
fn one_bounce_then_sky() {
    // A ground hit that scatters, then a miss: the background times one albedo.
    assert!(run(2, &[PathEvent::Scattered, PathEvent::Miss]) == (PathAction::Background, 2));
    // With depth 1 the scattered ray has no depth left.
    assert!(run(1, &[PathEvent::Scattered]) == (PathAction::Zero, 1));
}

#[test]
fn path_ends_within_depth() {
    let always = [PathEvent::Scattered; 16];
    for depth in 0..10 {
        let (action, traced) = run(depth, &always);
        assert!(action == PathAction::Zero);
        assert_eq!(traced, depth as usize);
    }
}
