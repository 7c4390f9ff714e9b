use sphere_physics::state::{debug_stepper_system, pause_system, Paused};

#[test]
fn starts_paused() {
    let mode = Paused::default();
    assert_eq!(mode, Paused(true));
    assert!(!mode.is_running());
}

#[test]
fn toggle_flips_both_ways() {
    assert_eq!(Paused(true).toggled(), Paused(false));
    assert_eq!(Paused(false).toggled(), Paused(true));
    assert!(Paused(false).is_running());
}

#[test]
fn signal_toggles_once() {
    let mut mode = Paused(true);
    pause_system(&mut mode, true);
    assert_eq!(mode, Paused(false));
    pause_system(&mut mode, false);
    assert_eq!(mode, Paused(false));
    pause_system(&mut mode, true);
    assert_eq!(mode, Paused(true));
}

#[test]
fn double_signal_restores_state() {
    for start in [Paused(true), Paused(false)] {
        let mut mode = start;
        pause_system(&mut mode, true);
        pause_system(&mut mode, true);
        assert_eq!(mode, start);
        assert_eq!(start.toggled().toggled(), start);
    }
}

#[test]
fn debug_stepper_pauses() {
    let mut mode = Paused(false);
    debug_stepper_system(&mut mode);
    assert_eq!(mode, Paused(true));
    debug_stepper_system(&mut mode);
    assert_eq!(mode, Paused(true));
}
