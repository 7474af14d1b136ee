//! Keyboard controls: which key does what, and the on/off switches of the
//! viewer (rain, pause, X-ray, axes, spin, help).

use vstd::prelude::*;

verus! {

/// The keys the viewer reacts to.
#[derive(Clone, Copy, PartialEq, Eq, Debug, Structural)]
pub enum Key {
    Left,
    Right,
    Up,
    Down,
    Esc,
    Tab,
    Char(char),
    /// Any other key.
    Other,
}

/// Camera motions.
#[derive(Clone, Copy, PartialEq, Eq, Debug, Hash, Structural)]
pub enum Motion {
    YawLeft,
    YawRight,
    PitchUp,
    PitchDown,
    RollPlus,
    RollMinus,
    MoveLeft,
    MoveRight,
    MoveUp,
    MoveDown,
    MoveForward,
    MoveBack,
}

/// The camera motion bound to a key.  With Shift, the arrows and `h`/`l`/`k`/`j`
/// (either case) move the view; without, the arrows and lower-case
/// `h`/`l`/`k`/`j` rotate it.  `=`/`+` and `-` move nearer and farther,
/// `r` and `e` roll, with or without Shift.
pub open spec fn motion_of(code: Key, shift: bool) -> Option<Motion> {
    match code {
        Key::Left => Some(if shift { Motion::MoveLeft } else { Motion::YawLeft }),
        Key::Right => Some(if shift { Motion::MoveRight } else { Motion::YawRight }),
        Key::Up => Some(if shift { Motion::MoveUp } else { Motion::PitchUp }),
        Key::Down => Some(if shift { Motion::MoveDown } else { Motion::PitchDown }),
        Key::Char(c) => {
            if shift && (c == 'h' || c == 'H') {
                Some(Motion::MoveLeft)
            } else if shift && (c == 'l' || c == 'L') {
                Some(Motion::MoveRight)
            } else if shift && (c == 'k' || c == 'K') {
                Some(Motion::MoveUp)
            } else if shift && (c == 'j' || c == 'J') {
                Some(Motion::MoveDown)
            } else if c == '=' || c == '+' {
                Some(Motion::MoveForward)
            } else if c == '-' {
                Some(Motion::MoveBack)
            } else if c == 'h' {
                Some(Motion::YawLeft)
            } else if c == 'l' {
                Some(Motion::YawRight)
            } else if c == 'k' {
                Some(Motion::PitchUp)
            } else if c == 'j' {
                Some(Motion::PitchDown)
            } else if c == 'r' {
                Some(Motion::RollPlus)
            } else if c == 'e' {
                Some(Motion::RollMinus)
            } else {
                None
            }
        },
        _ => None,
    }
}

/// The camera motion bound to a key, if any.
pub fn motion_for(code: Key, shift: bool) -> (m: Option<Motion>)
    ensures
        m == motion_of(code, shift),
{
    match code {
        Key::Left if shift => Some(Motion::MoveLeft),
        Key::Right if shift => Some(Motion::MoveRight),
        Key::Up if shift => Some(Motion::MoveUp),
        Key::Down if shift => Some(Motion::MoveDown),
        Key::Char('h') if shift => Some(Motion::MoveLeft),
        Key::Char('H') if shift => Some(Motion::MoveLeft),
        Key::Char('l') if shift => Some(Motion::MoveRight),
        Key::Char('L') if shift => Some(Motion::MoveRight),
        Key::Char('k') if shift => Some(Motion::MoveUp),
        Key::Char('K') if shift => Some(Motion::MoveUp),
        Key::Char('j') if shift => Some(Motion::MoveDown),
        Key::Char('J') if shift => Some(Motion::MoveDown),
        Key::Char('=') | Key::Char('+') => Some(Motion::MoveForward),
        Key::Char('-') => Some(Motion::MoveBack),
        Key::Left | Key::Char('h') => Some(Motion::YawLeft),
        Key::Right | Key::Char('l') => Some(Motion::YawRight),
        Key::Up | Key::Char('k') => Some(Motion::PitchUp),
        Key::Down | Key::Char('j') => Some(Motion::PitchDown),
        Key::Char('r') => Some(Motion::RollPlus),
        Key::Char('e') => Some(Motion::RollMinus),
        _ => None,
    }
}

/// What a key press asks for.
#[derive(Clone, Copy, PartialEq, Eq, Debug, Structural)]
pub enum Command {
    Quit,
    ToggleHelp,
    ToggleAxes,
    ToggleSpin,
    /// Fit the view to the model.
    Fit,
    /// Re-centre the view.
    Center,
    ResetView,
    /// Generate a new random terrain.
    Generate,
    ToggleRain,
    TogglePause,
    /// Clear water and particles.
    Clear,
    ToggleXray,
    Move(Motion),
    Ignore,
}

/// The command bound to a key: `q`/Esc quit, `?` help, Tab axes, Space spin,
/// Shift+`f` fit and `f` centre, `0` reset view, `g` generate, `w` rain,
/// `p` pause, `c` clear, `x` X-ray; other keys move the camera or do nothing.
pub open spec fn command_of(code: Key, shift: bool) -> Command {
    let fallback = match motion_of(code, shift) {
        Some(m) => Command::Move(m),
        None => Command::Ignore,
    };
    match code {
        Key::Esc => Command::Quit,
        Key::Tab => Command::ToggleAxes,
        Key::Char(c) => {
            if c == 'q' {
                Command::Quit
            } else if c == '?' {
                Command::ToggleHelp
            } else if c == ' ' {
                Command::ToggleSpin
            } else if c == 'f' || c == 'F' {
                if shift {
                    Command::Fit
                } else {
                    Command::Center
                }
            } else if c == '0' {
                Command::ResetView
            } else if c == 'g' {
                Command::Generate
            } else if c == 'w' {
                Command::ToggleRain
            } else if c == 'p' {
                Command::TogglePause
            } else if c == 'c' {
                Command::Clear
            } else if c == 'x' {
                Command::ToggleXray
            } else {
                fallback
            }
        },
        _ => fallback,
    }
}

/// The command bound to a key.
pub fn command_for(code: Key, shift: bool) -> (cmd: Command)
    ensures
        cmd == command_of(code, shift),
{
    match code {
        Key::Char('q') | Key::Esc => Command::Quit,
        Key::Char('?') => Command::ToggleHelp,
        Key::Tab => Command::ToggleAxes,
        Key::Char(' ') => Command::ToggleSpin,
        Key::Char('f') if shift => Command::Fit,
        Key::Char('F') if shift => Command::Fit,
        Key::Char('f') | Key::Char('F') => Command::Center,
        Key::Char('0') => Command::ResetView,
        Key::Char('g') => Command::Generate,
        Key::Char('w') => Command::ToggleRain,
        Key::Char('p') => Command::TogglePause,
        Key::Char('c') => Command::Clear,
        Key::Char('x') => Command::ToggleXray,
        _ => match motion_for(code, shift) {
            Some(m) => Command::Move(m),
            None => Command::Ignore,
        },
    }
}

/// What a key event reports: a press, a repeat while held, or a release.
#[derive(Clone, Copy, PartialEq, Eq, Debug, Structural)]
pub enum KeyPhase {
    Press,
    Repeat,
    Release,
}

/// What to do with the water once the rain has stopped.
#[derive(Clone, Copy, PartialEq, Eq, Debug, Structural)]
pub enum Settle {
    /// Keep simulating.
    Keep,
    /// The water holds what the terrain can hold: pin it to the exact equilibrium.
    Snap,
    /// The water has stopped short of the equilibrium: freeze it as it is.
    Freeze,
}

/// The settling decision: only once the rain has stopped, some water is
/// left, the flow has stopped and every drop has landed does the water come
/// to rest, snapped to the equilibrium when it is close to it, else frozen.
pub open spec fn settle_of(
    raining: bool,
    has_water: bool,
    flow_stopped: bool,
    drops_landed: bool,
    near_equilibrium: bool,
) -> Settle {
    if raining || !has_water || !flow_stopped || !drops_landed {
        Settle::Keep
    } else if near_equilibrium {
        Settle::Snap
    } else {
        Settle::Freeze
    }
}

/// The viewer's on/off state.
#[derive(Clone, Copy, PartialEq, Eq, Debug, Structural)]
pub struct Switches {
    /// Physics paused.
    pub paused: bool,
    /// Rain falling.
    pub raining: bool,
    /// X-ray: water drawn through the terrain.
    pub xray: bool,
    /// Water has come to rest after the rain stopped (physics frozen).
    pub settled: bool,
    pub show_axes: bool,
    pub auto_spin: bool,
    /// Key help shown.
    pub help: bool,
    /// The frame needs redrawing.
    pub dirty: bool,
}

/// The switches after a command: a toggle flips its switch; generating a
/// terrain, clearing the water and toggling the rain put the water back in
/// motion; every command but quitting and an unbound key owes a redraw.
pub open spec fn switched(s: Switches, cmd: Command) -> Switches {
    match cmd {
        Command::Quit | Command::Ignore => s,
        Command::ToggleHelp => Switches { help: !s.help, dirty: true, ..s },
        Command::ToggleAxes => Switches { show_axes: !s.show_axes, dirty: true, ..s },
        Command::ToggleSpin => Switches { auto_spin: !s.auto_spin, dirty: true, ..s },
        Command::ToggleRain => Switches { raining: !s.raining, settled: false, dirty: true, ..s },
        Command::TogglePause => Switches { paused: !s.paused, dirty: true, ..s },
        Command::ToggleXray => Switches { xray: !s.xray, dirty: true, ..s },
        Command::Generate | Command::Clear => Switches { settled: false, dirty: true, ..s },
        Command::Fit | Command::Center | Command::ResetView | Command::Move(_) => Switches {
            dirty: true,
            ..s
        },
    }
}

impl Switches {
    /// Axes shown and a frame to draw; everything else off.
    pub fn new() -> (s: Switches)
        ensures
            s == (Switches {
                paused: false,
                raining: false,
                xray: false,
                settled: false,
                show_axes: true,
                auto_spin: false,
                help: false,
                dirty: true,
            }),
    {
        Switches {
            paused: false,
            raining: false,
            xray: false,
            settled: false,
            show_axes: true,
            auto_spin: false,
            help: false,
            dirty: true,
        }
    }

    /// Starts or stops the rain; the water is no longer at rest.
    pub fn toggle_rain(&mut self)
        ensures
            *final(self) == switched(*old(self), Command::ToggleRain),
    {
        self.raining = !self.raining;
        self.settled = false;
        self.dirty = true;
    }

    /// Pauses or resumes the physics.
    pub fn toggle_pause(&mut self)
        ensures
            *final(self) == switched(*old(self), Command::TogglePause),
    {
        self.paused = !self.paused;
        self.dirty = true;
    }

    /// Applies a command's effect on the switches; returns whether it asks
    /// to quit.
    pub fn apply(&mut self, cmd: Command) -> (quit: bool)
        ensures
            *final(self) == switched(*old(self), cmd),
            quit == (cmd == Command::Quit),
    {
        match cmd {
            Command::Quit => {
                return true;
            },
            Command::ToggleHelp => {
                self.help = !self.help;
                self.dirty = true;
            },
            Command::ToggleAxes => {
                self.show_axes = !self.show_axes;
                self.dirty = true;
            },
            Command::ToggleSpin => {
                self.auto_spin = !self.auto_spin;
                self.dirty = true;
            },
            Command::ToggleRain => {
                self.toggle_rain();
            },
            Command::TogglePause => {
                self.toggle_pause();
            },
            Command::ToggleXray => {
                self.xray = !self.xray;
                self.dirty = true;
            },
            Command::Generate | Command::Clear => {
                self.settled = false;
                self.dirty = true;
            },
            Command::Fit | Command::Center | Command::ResetView | Command::Move(_) => {
                self.dirty = true;
            },
            Command::Ignore => {},
        }
        false
    }

    /// Whether the water may come to rest: the rain has stopped, some water
    /// is left, the flow has stopped and every drop has landed.
    pub fn at_rest(&self, has_water: bool, flow_stopped: bool, drops_landed: bool) -> (b: bool)
        ensures
            b == (settle_of(self.raining, has_water, flow_stopped, drops_landed, true)
                != Settle::Keep),
    {
        !self.raining && has_water && flow_stopped && drops_landed
    }

    /// Decides whether the water comes to rest this frame (see `settle_of`);
    /// when it does, the switches record it as settled.
    pub fn settle(
        &mut self,
        has_water: bool,
        flow_stopped: bool,
        drops_landed: bool,
        near_equilibrium: bool,
    ) -> (d: Settle)
        ensures
            d == settle_of(old(self).raining, has_water, flow_stopped, drops_landed, near_equilibrium),
            *final(self) == (Switches { settled: old(self).settled || d != Settle::Keep, ..*old(self) }),
    {
        if self.raining || !has_water || !flow_stopped || !drops_landed {
            return Settle::Keep;
        }
        self.settled = true;
        if near_equilibrium {
            Settle::Snap
        } else {
            Settle::Freeze
        }
    }

    /// Whether rain drops fall this frame.
    pub fn rain_falls(&self) -> (b: bool)
        ensures
            b == (self.raining && !self.paused && !self.settled),
    {
        self.raining && !self.paused && !self.settled
    }

    /// Whether the physics advances this frame.
    pub fn physics_runs(&self) -> (b: bool)
        ensures
            b == (!self.paused && !self.settled),
    {
        !self.paused && !self.settled
    }
}

/// Every toggle undoes itself: applying it twice gives back the switches,
/// except that a frame is owed and (for the rain) the water is no longer at rest.
pub proof fn law_toggle_twice(s: Switches, cmd: Command)
    requires
        cmd == Command::ToggleHelp || cmd == Command::ToggleAxes || cmd == Command::ToggleSpin
            || cmd == Command::ToggleRain || cmd == Command::TogglePause || cmd
            == Command::ToggleXray,
    ensures
        switched(switched(s, cmd), cmd) == (Switches {
            dirty: true,
            settled: if cmd == Command::ToggleRain {
                false
            } else {
                s.settled
            },
            ..s
        }),
{
}

/// Quitting and an unbound key change no switch.
pub proof fn law_other_commands_keep_switches(s: Switches, cmd: Command)
    requires
        cmd == Command::Quit || cmd == Command::Ignore,
    ensures
        switched(s, cmd) == s,
{
}

/// Generating a terrain or clearing the water changes nothing but the water's
/// rest and the owed frame: rain, pause and the display switches stay.
pub proof fn law_fresh_water_keeps_settings(s: Switches, cmd: Command)
    requires
        cmd == Command::Generate || cmd == Command::Clear,
    ensures
        switched(s, cmd) == (Switches { settled: false, dirty: true, ..s }),
        !switched(s, cmd).settled,
{
}

/// A motion key's hold, after a key event: released it is up; repeated it is
/// held steadily; pressed while up it is just pressed, and that press takes
/// one step (the second value); pressed again while held it is steady.
pub open spec fn hold_of(held: Option<bool>, phase: KeyPhase) -> (Option<bool>, bool) {
    match phase {
        KeyPhase::Release => (None, false),
        KeyPhase::Repeat => (Some(true), false),
        KeyPhase::Press => match held {
            Some(_) => (Some(true), false),
            None => (Some(false), true),
        },
    }
}

/// The next hold of a motion key (`None`: up; `Some(false)`: just pressed;
/// `Some(true)`: held steadily) and whether this event takes a single step.
pub fn hold_step(held: Option<bool>, phase: KeyPhase) -> (next: (Option<bool>, bool))
    ensures
        next == hold_of(held, phase),
{
    match phase {
        KeyPhase::Release => (None, false),
        KeyPhase::Repeat => (Some(true), false),
        KeyPhase::Press => match held {
            Some(_) => (Some(true), false),
            None => (Some(false), true),
        },
    }
}

/// Releasing a key always stops it, and a single step is taken only by the
/// first press of a key that was up.
pub proof fn law_release_stops(held: Option<bool>, phase: KeyPhase)
    ensures
        phase == KeyPhase::Release ==> hold_of(held, phase).0 is None,
        hold_of(held, phase).1 <==> (phase == KeyPhase::Press && held is None),
        phase != KeyPhase::Release ==> hold_of(held, phase).0 is Some,
{
}

/// The motion that undoes `m`.
pub open spec fn reverse(m: Motion) -> Motion {
    match m {
        Motion::YawLeft => Motion::YawRight,
        Motion::YawRight => Motion::YawLeft,
        Motion::PitchUp => Motion::PitchDown,
        Motion::PitchDown => Motion::PitchUp,
        Motion::RollPlus => Motion::RollMinus,
        Motion::RollMinus => Motion::RollPlus,
        Motion::MoveLeft => Motion::MoveRight,
        Motion::MoveRight => Motion::MoveLeft,
        Motion::MoveUp => Motion::MoveDown,
        Motion::MoveDown => Motion::MoveUp,
        Motion::MoveForward => Motion::MoveBack,
        Motion::MoveBack => Motion::MoveForward,
    }
}

/// The motion undoing a bound motion, if any.
pub open spec fn reverse_of(m: Option<Motion>) -> Option<Motion> {
    match m {
        Some(x) => Some(reverse(x)),
        None => None,
    }
}

/// Turning the view to the left, or moving it left.
pub open spec fn leftward(m: Motion) -> bool {
    m == Motion::YawLeft || m == Motion::MoveLeft
}

/// Tilting the view up, or moving it up.
pub open spec fn upward(m: Motion) -> bool {
    m == Motion::PitchUp || m == Motion::MoveUp
}

/// A motion that rotates the view rather than moving it.
pub open spec fn turns(m: Motion) -> bool {
    m == Motion::YawLeft || m == Motion::YawRight || m == Motion::PitchUp || m == Motion::PitchDown
        || m == Motion::RollPlus || m == Motion::RollMinus
}

/// Undoing a motion twice gives it back, and no motion undoes itself.
pub proof fn law_reverse_is_an_involution(m: Motion)
    ensures
        reverse(reverse(m)) == m,
        reverse(m) != m,
{
}

/// Opposite keys move the view in opposite directions, with or without
/// Shift: right undoes left, down undoes up (for the arrows and for
/// `h`/`l`, `k`/`j`), `-` undoes `=`, `e` undoes `r`.  The left and up
/// keys point left and up, the arrows do what `h`/`l`/`k`/`j` do, and Shift
/// turns an arrow's rotation into a move.
pub proof fn law_opposite_keys_move_oppositely(shift: bool)
    ensures
        motion_of(Key::Right, shift) == reverse_of(motion_of(Key::Left, shift)),
        motion_of(Key::Down, shift) == reverse_of(motion_of(Key::Up, shift)),
        motion_of(Key::Char('l'), shift) == reverse_of(motion_of(Key::Char('h'), shift)),
        motion_of(Key::Char('j'), shift) == reverse_of(motion_of(Key::Char('k'), shift)),
        motion_of(Key::Char('-'), shift) == reverse_of(motion_of(Key::Char('='), shift)),
        motion_of(Key::Char('e'), shift) == reverse_of(motion_of(Key::Char('r'), shift)),
        motion_of(Key::Left, shift) == motion_of(Key::Char('h'), shift),
        motion_of(Key::Right, shift) == motion_of(Key::Char('l'), shift),
        motion_of(Key::Up, shift) == motion_of(Key::Char('k'), shift),
        motion_of(Key::Down, shift) == motion_of(Key::Char('j'), shift),
        motion_of(Key::Left, shift) matches Some(m) && leftward(m),
        motion_of(Key::Up, shift) matches Some(m) && upward(m),
        motion_of(Key::Left, shift) matches Some(m) && (turns(m) <==> !shift),
        motion_of(Key::Up, shift) matches Some(m) && (turns(m) <==> !shift),
{
}

/// Every key bound to a motion asks for that motion, and only those keys do.
pub proof fn law_motion_keys_move(code: Key, shift: bool)
    ensures
        (command_of(code, shift) matches Command::Move(m) ==> motion_of(code, shift) == Some(m)),
{
}

/// The water comes to rest only once the rain has stopped, some water is
/// left, the flow has stopped and every drop has landed; then it always
/// does, snapped to the equilibrium exactly when it is near it.
pub proof fn law_rest_only_after_the_rain(
    raining: bool,
    has_water: bool,
    flow_stopped: bool,
    drops_landed: bool,
    near_equilibrium: bool,
)
    ensures
        raining ==> settle_of(raining, has_water, flow_stopped, drops_landed, near_equilibrium)
            == Settle::Keep,
        !has_water || !flow_stopped || !drops_landed ==> settle_of(
            raining,
            has_water,
            flow_stopped,
            drops_landed,
            near_equilibrium,
        ) == Settle::Keep,
        !raining && has_water && flow_stopped && drops_landed ==> settle_of(
            raining,
            has_water,
            flow_stopped,
            drops_landed,
            near_equilibrium,
        ) == (if near_equilibrium {
            Settle::Snap
        } else {
            Settle::Freeze
        }),
{
}

/// Whether `cmd` is one of the six toggles.
pub open spec fn is_toggle(cmd: Command) -> bool {
    cmd == Command::ToggleHelp || cmd == Command::ToggleAxes || cmd == Command::ToggleSpin
        || cmd == Command::ToggleRain || cmd == Command::TogglePause || cmd == Command::ToggleXray
}

/// The switch a toggle command flips.
pub open spec fn switch_of(s: Switches, cmd: Command) -> bool {
    match cmd {
        Command::ToggleHelp => s.help,
        Command::ToggleAxes => s.show_axes,
        Command::ToggleSpin => s.auto_spin,
        Command::ToggleRain => s.raining,
        Command::TogglePause => s.paused,
        _ => s.xray,
    }
}

/// One application of a toggle flips its own switch, leaves the other
/// toggles' switches as they were, and owes a redraw.
pub proof fn law_toggle_flips_its_switch(s: Switches, cmd: Command, other: Command)
    requires
        is_toggle(cmd),
        is_toggle(other),
        other != cmd,
    ensures
        switch_of(switched(s, cmd), cmd) == !switch_of(s, cmd),
        switch_of(switched(s, cmd), other) == switch_of(s, other),
        switched(s, cmd).dirty,
{
}

/// Toggling the rain, clearing the water and a new terrain wake settled
/// water; no other command changes whether it is settled.
pub proof fn law_settling_follows_the_rain(s: Switches, cmd: Command)
    ensures
        (cmd == Command::ToggleRain || cmd == Command::Clear || cmd == Command::Generate)
            ==> !switched(s, cmd).settled,
        !(cmd == Command::ToggleRain || cmd == Command::Clear || cmd == Command::Generate)
            ==> switched(s, cmd).settled == s.settled,
{
}

} // verus!
