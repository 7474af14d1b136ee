use trw::controls::{
    command_for, hold_step, motion_for, Command, Key, KeyPhase, Motion, Settle, Switches,
};

#[test]
fn motion_keys() {
    assert_eq!(motion_for(Key::Left, false), Some(Motion::YawLeft));
    assert_eq!(motion_for(Key::Left, true), Some(Motion::MoveLeft));
    assert_eq!(motion_for(Key::Char('h'), false), Some(Motion::YawLeft));
    assert_eq!(motion_for(Key::Char('H'), true), Some(Motion::MoveLeft));
    assert_eq!(motion_for(Key::Char('H'), false), None);
    assert_eq!(motion_for(Key::Char('j'), false), Some(Motion::PitchDown));
    assert_eq!(motion_for(Key::Char('k'), true), Some(Motion::MoveUp));
    assert_eq!(motion_for(Key::Char('='), false), Some(Motion::MoveForward));
    assert_eq!(motion_for(Key::Char('+'), true), Some(Motion::MoveForward));
    assert_eq!(motion_for(Key::Char('-'), false), Some(Motion::MoveBack));
    assert_eq!(motion_for(Key::Char('r'), true), Some(Motion::RollPlus));
    assert_eq!(motion_for(Key::Char('e'), false), Some(Motion::RollMinus));
    assert_eq!(motion_for(Key::Char('z'), false), None);
    assert_eq!(motion_for(Key::Tab, false), None);
}

#[test]
fn command_keys() {
    assert_eq!(command_for(Key::Char('q'), false), Command::Quit);
    assert_eq!(command_for(Key::Esc, false), Command::Quit);
    assert_eq!(command_for(Key::Char('?'), false), Command::ToggleHelp);
    assert_eq!(command_for(Key::Tab, false), Command::ToggleAxes);
    assert_eq!(command_for(Key::Char(' '), false), Command::ToggleSpin);
    assert_eq!(command_for(Key::Char('f'), true), Command::Fit);
    assert_eq!(command_for(Key::Char('F'), true), Command::Fit);
    assert_eq!(command_for(Key::Char('f'), false), Command::Center);
    assert_eq!(command_for(Key::Char('0'), false), Command::ResetView);
    assert_eq!(command_for(Key::Char('g'), false), Command::Generate);
    assert_eq!(command_for(Key::Char('w'), false), Command::ToggleRain);
    assert_eq!(command_for(Key::Char('p'), false), Command::TogglePause);
    assert_eq!(command_for(Key::Char('c'), false), Command::Clear);
    assert_eq!(command_for(Key::Char('x'), false), Command::ToggleXray);
    assert_eq!(command_for(Key::Left, true), Command::Move(Motion::MoveLeft));
    assert_eq!(command_for(Key::Other, false), Command::Ignore);
}

#[test]
fn switches_toggle_back_and_forth() {
    let mut s = Switches::new();
    assert!(!s.raining && !s.paused && !s.xray && s.show_axes && s.dirty);
    s.dirty = false;
    assert!(!s.apply(command_for(Key::Char('w'), false)));
    assert!(s.raining && s.dirty);
    s.apply(Command::ToggleRain);
    assert!(!s.raining);
    s.apply(Command::TogglePause);
    assert!(s.paused);
    s.apply(Command::TogglePause);
    assert!(!s.paused);
    s.apply(Command::ToggleXray);
    assert!(s.xray);
    s.apply(Command::ToggleXray);
    assert!(!s.xray);
    assert!(s.apply(Command::Quit));
}

#[test]
fn rain_and_physics_gates() {
    let mut s = Switches::new();
    assert!(!s.rain_falls());
    assert!(s.physics_runs());
    s.toggle_rain();
    assert!(s.rain_falls());
    s.toggle_pause();
    assert!(!s.rain_falls() && !s.physics_runs());
    s.toggle_pause();
    s.settled = true;
    assert!(!s.rain_falls() && !s.physics_runs());
    // restarting the rain wakes the water
    s.toggle_rain();
    s.toggle_rain();
    assert!(!s.settled && s.rain_falls());
}

#[test]
fn settling_only_after_the_rain() {
    let mut s = Switches::new();
    s.toggle_rain();
    assert!(!s.at_rest(true, true, true));
    assert_eq!(s.settle(true, true, true, true), Settle::Keep);
    assert!(!s.settled);
    s.toggle_rain();
    assert!(!s.at_rest(false, true, true));
    assert!(!s.at_rest(true, false, true));
    assert!(!s.at_rest(true, true, false));
    assert!(s.at_rest(true, true, true));
    assert_eq!(s.settle(true, true, false, true), Settle::Keep);
    assert!(!s.settled);
    assert_eq!(s.settle(true, true, true, false), Settle::Freeze);
    assert!(s.settled && !s.physics_runs());
    let mut s = Switches::new();
    assert_eq!(s.settle(true, true, true, true), Settle::Snap);
    assert!(s.settled);
}

#[test]
fn toggles_rain_pause_xray() {
    let mut s = Switches::new();
    let key = |c: char| command_for(Key::Char(c), false);

    // w: start/stop rain (toggle back and forth)
    assert!(!s.raining);
    assert!(!s.apply(key('w')));
    assert!(s.raining);
    s.apply(key('w'));
    assert!(!s.raining);

    // p: pause/resume physics
    assert!(!s.paused);
    s.apply(key('p'));
    assert!(s.paused);
    s.apply(key('p'));
    assert!(!s.paused);

    // x: X-Ray see-through
    assert!(!s.xray);
    s.apply(key('x'));
    assert!(s.xray);
    s.apply(key('x'));
    assert!(!s.xray);
}

#[test]
fn quit_keys_exit() {
    assert!(Switches::new().apply(command_for(Key::Char('q'), false)));
    assert!(Switches::new().apply(command_for(Key::Esc, false)));
}

#[test]
fn clear_and_generate_wake_the_water() {
    for cmd in [Command::Clear, Command::Generate] {
        let mut s = Switches::new();
        s.raining = true;
        s.settled = true;
        s.dirty = false;
        assert!(!s.apply(cmd));
        assert!(!s.settled && s.dirty && s.raining && s.show_axes);
    }
}

#[test]
fn view_commands_only_redraw() {
    for cmd in [
        Command::Fit,
        Command::Center,
        Command::ResetView,
        Command::Move(Motion::YawLeft),
    ] {
        let mut s = Switches::new();
        s.settled = true;
        s.dirty = false;
        assert!(!s.apply(cmd));
        assert!(s.settled && s.dirty);
    }
    let mut s = Switches::new();
    s.dirty = false;
    assert!(!s.apply(Command::Ignore));
    assert!(!s.dirty);
}

#[test]
fn held_keys_press_repeat_release() {
    assert_eq!(hold_step(None, KeyPhase::Press), (Some(false), true));
    assert_eq!(hold_step(Some(false), KeyPhase::Press), (Some(true), false));
    assert_eq!(hold_step(Some(false), KeyPhase::Repeat), (Some(true), false));
    assert_eq!(hold_step(None, KeyPhase::Repeat), (Some(true), false));
    assert_eq!(hold_step(Some(true), KeyPhase::Release), (None, false));
    assert_eq!(hold_step(None, KeyPhase::Release), (None, false));
}
