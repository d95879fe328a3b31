//! Player commands and the decisions around them: what a runner does with a
//! command, how the wall routes wake-ups, pointer buttons and engine calls,
//! and where each channel is drawn.
use vstd::prelude::*;
use crate::input::ManagedEvent;
use crate::text::{chars_of, parse_usize, parse_usize_chars, same_chars};

verus! {

/// A command sent to a player.
#[allow(non_camel_case_types)]
#[derive(Clone, Copy, Debug, PartialEq, Eq, Structural)]
pub enum PlayerCommand {
    /// No command.
    NoCommand,
    Sleep,
    Die,
    Play,
    Pause,
    Reset,
    Skip_F,
    Skip_R,
    Clone_4,
    More,
    Diff,
    WakeTo0,
    WakeTo1,
    WakeTo2,
    WakeTo3,
    WakeTo4,
    WakeTo5,
    WakeTo6,
    WakeTo7,
    WakeTo8,
    WakeTo9,
}

/// A player's state: asleep (paused, waiting for a wake-up) or playing.
#[derive(Clone, Copy, Debug, PartialEq, Eq, Structural)]
pub enum PlayerState {
    Sleeping,
    Normal,
}

/// The number that identifies a command: `0` to `10` in declaration order
/// for the plain commands, `50 + n` for `WakeTo<n>`. Commands are ordered by
/// it.
pub open spec fn command_code(c: PlayerCommand) -> nat {
    match c {
        PlayerCommand::NoCommand => 0,
        PlayerCommand::Sleep => 1,
        PlayerCommand::Die => 2,
        PlayerCommand::Play => 3,
        PlayerCommand::Pause => 4,
        PlayerCommand::Reset => 5,
        PlayerCommand::Skip_F => 6,
        PlayerCommand::Skip_R => 7,
        PlayerCommand::Clone_4 => 8,
        PlayerCommand::More => 9,
        PlayerCommand::Diff => 10,
        PlayerCommand::WakeTo0 => 50,
        PlayerCommand::WakeTo1 => 51,
        PlayerCommand::WakeTo2 => 52,
        PlayerCommand::WakeTo3 => 53,
        PlayerCommand::WakeTo4 => 54,
        PlayerCommand::WakeTo5 => 55,
        PlayerCommand::WakeTo6 => 56,
        PlayerCommand::WakeTo7 => 57,
        PlayerCommand::WakeTo8 => 58,
        PlayerCommand::WakeTo9 => 59,
    }
}

/// The command that wakes a player onto library `n` (`0` to `9`).
pub open spec fn wake_for(n: nat) -> PlayerCommand {
    if n == 1 {
        PlayerCommand::WakeTo1
    } else if n == 2 {
        PlayerCommand::WakeTo2
    } else if n == 3 {
        PlayerCommand::WakeTo3
    } else if n == 4 {
        PlayerCommand::WakeTo4
    } else if n == 5 {
        PlayerCommand::WakeTo5
    } else if n == 6 {
        PlayerCommand::WakeTo6
    } else if n == 7 {
        PlayerCommand::WakeTo7
    } else if n == 8 {
        PlayerCommand::WakeTo8
    } else if n == 9 {
        PlayerCommand::WakeTo9
    } else {
        PlayerCommand::WakeTo0
    }
}

impl PlayerCommand {
    /// The command's number (see `command_code`).
    pub fn code(&self) -> (r: u8)
        ensures
            r == command_code(*self),
    {
        match self {
            PlayerCommand::NoCommand => 0,
            PlayerCommand::Sleep => 1,
            PlayerCommand::Die => 2,
            PlayerCommand::Play => 3,
            PlayerCommand::Pause => 4,
            PlayerCommand::Reset => 5,
            PlayerCommand::Skip_F => 6,
            PlayerCommand::Skip_R => 7,
            PlayerCommand::Clone_4 => 8,
            PlayerCommand::More => 9,
            PlayerCommand::Diff => 10,
            PlayerCommand::WakeTo0 => 50,
            PlayerCommand::WakeTo1 => 51,
            PlayerCommand::WakeTo2 => 52,
            PlayerCommand::WakeTo3 => 53,
            PlayerCommand::WakeTo4 => 54,
            PlayerCommand::WakeTo5 => 55,
            PlayerCommand::WakeTo6 => 56,
            PlayerCommand::WakeTo7 => 57,
            PlayerCommand::WakeTo8 => 58,
            PlayerCommand::WakeTo9 => 59,
        }
    }

    /// Whether the command is a wake-up (`WakeTo0` or later).
    pub fn is_wake(&self) -> (b: bool)
        ensures
            b == (command_code(*self) >= 50),
    {
        self.code() >= 50
    }

    /// The library a wake-up names: its number less that of `WakeTo0`.
    pub fn wake_lib(&self) -> (r: Option<usize>)
        ensures
            command_code(*self) >= 50 ==> r == Some((command_code(*self) - 50) as usize),
            command_code(*self) < 50 ==> r is None,
    {
        let c = self.code();
        if c >= 50 {
            Some((c - 50) as usize)
        } else {
            None
        }
    }

    /// The wake-up for library `itemi`: `WakeTo<itemi>` for `1` to `9`,
    /// `WakeTo0` otherwise.
    pub fn wake_to(itemi: usize) -> (r: PlayerCommand)
        ensures
            r == wake_for(itemi as nat),
    {
        match itemi {
            1 => PlayerCommand::WakeTo1,
            2 => PlayerCommand::WakeTo2,
            3 => PlayerCommand::WakeTo3,
            4 => PlayerCommand::WakeTo4,
            5 => PlayerCommand::WakeTo5,
            6 => PlayerCommand::WakeTo6,
            7 => PlayerCommand::WakeTo7,
            8 => PlayerCommand::WakeTo8,
            9 => PlayerCommand::WakeTo9,
            _ => PlayerCommand::WakeTo0,
        }
    }
}

/// What a player loads next.
#[derive(Clone, Copy, Debug, PartialEq, Eq, Structural)]
pub enum Source {
    /// Another file from the current directory.
    More,
    /// A file from another directory.
    Diff,
    /// The file channel 4 shows.
    Tagged,
    /// A fresh random file.
    Next,
    /// No file (an empty path).
    Empty,
}

/// What a player does with a command.
#[derive(Clone, Copy, Debug, PartialEq, Eq, Structural)]
pub enum Dispatch {
    /// Asleep and not woken: wait for the next command.
    KeepPolling,
    /// Pause and sleep.
    Sleep,
    /// Load a file and play it.
    Load(Source),
    /// Seek by this many seconds, keeping the file.
    Seek(i32),
}

/// The decision a player's runner makes on a command: while asleep only a
/// wake-up counts; a wake-up assigns its library (unless the player has a
/// fixed one, `fixed_lib < usize::MAX`) and acts as `Reset`.
pub open spec fn dispatch_spec(state: PlayerState, cmd: PlayerCommand, fixed_lib: usize) -> (
    Option<usize>,
    Dispatch,
) {
    if state == PlayerState::Sleeping && command_code(cmd) < 50 {
        (None, Dispatch::KeepPolling)
    } else {
        let reg: Option<usize> = if command_code(cmd) >= 50 && fixed_lib == usize::MAX {
            Some((command_code(cmd) - 50) as usize)
        } else {
            None
        };
        let c = if command_code(cmd) >= 50 {
            PlayerCommand::Reset
        } else {
            cmd
        };
        let act = match c {
            PlayerCommand::Sleep => Dispatch::Sleep,
            PlayerCommand::More => Dispatch::Load(Source::More),
            PlayerCommand::Diff => Dispatch::Load(Source::Diff),
            PlayerCommand::Clone_4 => Dispatch::Load(Source::Tagged),
            PlayerCommand::Reset => Dispatch::Load(Source::Next),
            PlayerCommand::Skip_F => Dispatch::Seek(30i32),
            PlayerCommand::Skip_R => Dispatch::Seek(-30i32),
            _ => Dispatch::Load(Source::Empty),
        };
        (reg, act)
    }
}

/// The state a player is in after acting on a dispatch.
pub open spec fn state_after(state: PlayerState, act: Dispatch) -> PlayerState {
    match act {
        Dispatch::KeepPolling => state,
        Dispatch::Sleep => PlayerState::Sleeping,
        Dispatch::Load(_) => PlayerState::Normal,
        Dispatch::Seek(_) => state,
    }
}

/// Decides what a player's runner does with a command: the library to
/// register (if any) and the action.
pub fn dispatch(state: PlayerState, cmd: PlayerCommand, fixed_lib: usize) -> (r: (Option<usize>, Dispatch))
    ensures
        r == dispatch_spec(state, cmd, fixed_lib),
{
    let wake = cmd.is_wake();
    if state == PlayerState::Sleeping && !wake {
        return (None, Dispatch::KeepPolling);
    }
    let reg = if wake && fixed_lib == usize::MAX {
        cmd.wake_lib()
    } else {
        None
    };
    let c = if wake {
        PlayerCommand::Reset
    } else {
        cmd
    };
    let act = match c {
        PlayerCommand::Sleep => Dispatch::Sleep,
        PlayerCommand::More => Dispatch::Load(Source::More),
        PlayerCommand::Diff => Dispatch::Load(Source::Diff),
        PlayerCommand::Clone_4 => Dispatch::Load(Source::Tagged),
        PlayerCommand::Reset => Dispatch::Load(Source::Next),
        PlayerCommand::Skip_F => Dispatch::Seek(30),
        PlayerCommand::Skip_R => Dispatch::Seek(-30),
        _ => Dispatch::Load(Source::Empty),
    };
    (reg, act)
}

/// The state after acting on a dispatch (see `state_after`).
pub fn next_state(state: PlayerState, act: Dispatch) -> (r: PlayerState)
    ensures
        r == state_after(state, act),
{
    match act {
        Dispatch::KeepPolling => state,
        Dispatch::Sleep => PlayerState::Sleeping,
        Dispatch::Load(_) => PlayerState::Normal,
        Dispatch::Seek(_) => state,
    }
}

/// The commands for the quiet group and the full-screen group when the
/// wall switches library: the group that the mode shows wakes, the other
/// sleeps.
pub fn route_wake(quiet_mode: bool, wake: PlayerCommand) -> (r: (PlayerCommand, PlayerCommand))
    ensures
        quiet_mode ==> r == (wake, PlayerCommand::Sleep),
        !quiet_mode ==> r == (PlayerCommand::Sleep, wake),
{
    if quiet_mode {
        (wake, PlayerCommand::Sleep)
    } else {
        (PlayerCommand::Sleep, wake)
    }
}

/// The command a released pointer button sends to the player under it:
/// left skips back, right skips forward, middle resets.
pub fn button_command(ev: ManagedEvent) -> (r: Option<PlayerCommand>)
    ensures
        r == match ev {
            ManagedEvent::M1 => Some(PlayerCommand::Skip_R),
            ManagedEvent::M2 => Some(PlayerCommand::Skip_F),
            ManagedEvent::M3 => Some(PlayerCommand::Reset),
            ManagedEvent::N => None::<PlayerCommand>,
        },
{
    match ev {
        ManagedEvent::M1 => Some(PlayerCommand::Skip_R),
        ManagedEvent::M2 => Some(PlayerCommand::Skip_F),
        ManagedEvent::M3 => Some(PlayerCommand::Reset),
        ManagedEvent::N => None,
    }
}

} // verus!

verus! {

/// What an engine call asks of the wall.
#[derive(Clone, Copy, Debug, PartialEq, Eq, Structural)]
pub enum EngineAction {
    /// Send this command to the calling player.
    Send(PlayerCommand),
    /// Quit the program.
    Quit,
    /// Switch the wall to this library.
    Switch(usize),
}

/// The action an engine call names: `clone`, `more`, `diff` send the
/// matching command, `quit` quits, anything else switches to the library
/// whose number it is in decimal (`0` when it is not one).
pub open spec fn engine_action(cmd: Seq<char>) -> EngineAction {
    if cmd == seq!['c', 'l', 'o', 'n', 'e'] {
        EngineAction::Send(PlayerCommand::Clone_4)
    } else if cmd == seq!['m', 'o', 'r', 'e'] {
        EngineAction::Send(PlayerCommand::More)
    } else if cmd == seq!['d', 'i', 'f', 'f'] {
        EngineAction::Send(PlayerCommand::Diff)
    } else if cmd == seq!['q', 'u', 'i', 't'] {
        EngineAction::Quit
    } else {
        EngineAction::Switch(
            match parse_usize(cmd) {
                Some(n) => n,
                None => 0,
            },
        )
    }
}

/// Reads an engine call (see `engine_action`).
pub fn engine_command(cmd: &str) -> (r: EngineAction)
    ensures
        r == engine_action(cmd@),
{
    let v = chars_of(cmd);
    let clone = ['c', 'l', 'o', 'n', 'e'];
    let more = ['m', 'o', 'r', 'e'];
    let diff = ['d', 'i', 'f', 'f'];
    let quit = ['q', 'u', 'i', 't'];
    assert(clone@ =~= seq!['c', 'l', 'o', 'n', 'e']);
    assert(more@ =~= seq!['m', 'o', 'r', 'e']);
    assert(diff@ =~= seq!['d', 'i', 'f', 'f']);
    assert(quit@ =~= seq!['q', 'u', 'i', 't']);
    if same_chars(&v, &clone) {
        EngineAction::Send(PlayerCommand::Clone_4)
    } else if same_chars(&v, &more) {
        EngineAction::Send(PlayerCommand::More)
    } else if same_chars(&v, &diff) {
        EngineAction::Send(PlayerCommand::Diff)
    } else if same_chars(&v, &quit) {
        EngineAction::Quit
    } else {
        EngineAction::Switch(
            match parse_usize_chars(&v) {
                Some(n) => n,
                None => 0,
            },
        )
    }
}

/// Half of `x`, rounded toward zero (Rust's `x / 2`).
pub open spec fn half(x: i32) -> int {
    if x >= 0 {
        x as int / 2
    } else {
        -((-(x as int)) / 2)
    }
}

/// Where channel `channel` is drawn in a `width` by `height` target, as
/// `(x, y, w, h)`: channel `0` fills it; `1` to `4` take a quarter each
/// (`3` at the origin, `4` to its right, `1` above it, `2` diagonally);
/// channels past `4` are not drawn.
pub open spec fn viewport_spec(channel: usize, width: i32, height: i32) -> Option<(int, int, int, int)> {
    let vw = half(width);
    let vh = half(height);
    if channel > 4 {
        None
    } else if channel == 0 {
        Some((0, 0, width as int, height as int))
    } else if channel == 4 {
        Some((vw, 0, vw, vh))
    } else if channel == 1 {
        Some((0, vh, vw, vh))
    } else if channel == 2 {
        Some((vw, vh, vw, vh))
    } else {
        Some((0, 0, vw, vh))
    }
}

fn half_exec(x: i32) -> (r: i32)
    ensures
        r == half(x),
{
    let w = x as i64;
    let h: i64 = if w >= 0 {
        w / 2
    } else {
        -((-w) / 2)
    };
    h as i32
}

/// The viewport of a channel (see `viewport_spec`).
pub fn viewport(channel: usize, width: i32, height: i32) -> (r: Option<(i32, i32, i32, i32)>)
    ensures
        match r {
            Some(v) => viewport_spec(channel, width, height) == Some(
                (v.0 as int, v.1 as int, v.2 as int, v.3 as int),
            ),
            None => viewport_spec(channel, width, height) is None,
        },
{
    if channel > 4 {
        return None;
    }
    let vw = half_exec(width);
    let vh = half_exec(height);
    if channel == 0 {
        Some((0, 0, width, height))
    } else if channel == 4 {
        Some((vw, 0, vw, vh))
    } else if channel == 1 {
        Some((0, vh, vw, vh))
    } else if channel == 2 {
        Some((vw, vh, vw, vh))
    } else {
        Some((0, 0, vw, vh))
    }
}

} // verus!

verus! {

/// A wake-up sent by the wall for library `itemi` makes a sleeping player
/// without a fixed library register `itemi` (library `0` past `9`) and load
/// a fresh file.
pub proof fn lemma_wake_roundtrip(itemi: nat)
    ensures
        dispatch_spec(PlayerState::Sleeping, wake_for(itemi), usize::MAX) == (
            Some((if itemi <= 9 {
                itemi
            } else {
                0
            }) as usize),
            Dispatch::Load(Source::Next),
        ),
{
}

/// A wake-up for library `itemi` reaching a player without a fixed library,
/// asleep or playing, makes it register `itemi` (library `0` past `9`) and
/// load a fresh file from it; afterwards the player is playing.
pub proof fn lemma_wake_registers_in_any_state(state: PlayerState, itemi: nat)
    ensures
        dispatch_spec(state, wake_for(itemi), usize::MAX).0 == Some(
            (if itemi <= 9 {
                itemi
            } else {
                0
            }) as usize,
        ),
        dispatch_spec(state, wake_for(itemi), usize::MAX).1 == Dispatch::Load(Source::Next),
        state_after(state, dispatch_spec(state, wake_for(itemi), usize::MAX).1)
            == PlayerState::Normal,
{
}

/// Any wake-up command registers exactly the library its number names,
/// whatever the player's state, when the player has no fixed library.
pub proof fn lemma_any_wake_registers(state: PlayerState, cmd: PlayerCommand)
    requires
        command_code(cmd) >= 50,
    ensures
        dispatch_spec(state, cmd, usize::MAX).0 == Some((command_code(cmd) - 50) as usize),
        dispatch_spec(state, cmd, usize::MAX).1 == Dispatch::Load(Source::Next),
{
}

/// A sleeping player ignores every command but a wake-up, and stays asleep.
pub proof fn lemma_sleeping_ignores(cmd: PlayerCommand, fixed_lib: usize)
    requires
        command_code(cmd) < 50,
    ensures
        dispatch_spec(PlayerState::Sleeping, cmd, fixed_lib) == (
            None::<usize>,
            Dispatch::KeepPolling,
        ),
        state_after(PlayerState::Sleeping, dispatch_spec(PlayerState::Sleeping, cmd, fixed_lib).1)
            == PlayerState::Sleeping,
{
}

/// A player with a fixed library never registers another one.
pub proof fn lemma_fixed_lib_kept(state: PlayerState, cmd: PlayerCommand, fixed_lib: usize)
    requires
        fixed_lib < usize::MAX,
    ensures
        dispatch_spec(state, cmd, fixed_lib).0 is None,
{
}

} // verus!
