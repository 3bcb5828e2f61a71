use particle_sim::RunState;

#[test]
fn new_run_state() {
    let run = RunState::new();
    assert!(run.is_running);
    assert_eq!(run.iterations, 0);
    assert_eq!(run.max_iterations, None);
}

#[test]
fn stops_at_iteration_limit() {
    let mut run = RunState::new();
    run.set_max_iterations(3);
    run.finish_step(false);
    assert!(run.is_running);
    run.finish_step(false);
    assert!(run.is_running);
    run.finish_step(false);
    assert!(!run.is_running);
    assert_eq!(run.iterations, 3);
}

#[test]
fn stops_past_time_limit() {
    let mut run = RunState::new();
    run.finish_step(false);
    assert!(run.is_running);
    run.finish_step(true);
    assert!(!run.is_running);
    assert_eq!(run.iterations, 2);
}

#[test]
fn stopped_loop_stays_stopped() {
    let mut run = RunState::new();
    run.finish_step(true);
    run.finish_step(false);
    assert!(!run.is_running);
}

#[test]
fn ten_steps_without_limits_keep_running() {
    let mut run = RunState::new();
    for _ in 0..10 {
        run.finish_step(false);
    }
    assert!(run.is_running);
    assert_eq!(run.iterations, 10);
}
