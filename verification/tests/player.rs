use vidzy::input::ManagedEvent;
use vidzy::player::{
    button_command, dispatch, engine_command, next_state, route_wake, viewport, Dispatch,
    EngineAction, PlayerCommand, PlayerState, Source,
};

#[test]
fn command_codes() {
    assert_eq!(PlayerCommand::NoCommand.code(), 0);
    assert_eq!(PlayerCommand::Diff.code(), 10);
    assert_eq!(PlayerCommand::WakeTo0.code(), 50);
    assert_eq!(PlayerCommand::WakeTo9.code(), 59);
    assert!(PlayerCommand::WakeTo3.is_wake());
    assert!(!PlayerCommand::Reset.is_wake());
    assert_eq!(PlayerCommand::WakeTo7.wake_lib(), Some(7));
    assert_eq!(PlayerCommand::Skip_F.wake_lib(), None);
}

#[test]
fn wake_to_maps_libraries() {
    assert_eq!(PlayerCommand::wake_to(0), PlayerCommand::WakeTo0);
    assert_eq!(PlayerCommand::wake_to(4), PlayerCommand::WakeTo4);
    assert_eq!(PlayerCommand::wake_to(9), PlayerCommand::WakeTo9);
    assert_eq!(PlayerCommand::wake_to(10), PlayerCommand::WakeTo0);
}

#[test]
fn wake_roundtrip_registers_library() {
    for i in 0..12usize {
        let (reg, act) = dispatch(PlayerState::Sleeping, PlayerCommand::wake_to(i), usize::MAX);
        assert_eq!(reg, Some(if i <= 9 { i } else { 0 }));
        assert_eq!(act, Dispatch::Load(Source::Next));
    }
}

#[test]
fn sleeping_player_ignores_commands() {
    for c in [PlayerCommand::Reset, PlayerCommand::Skip_F, PlayerCommand::Sleep, PlayerCommand::NoCommand] {
        assert_eq!(dispatch(PlayerState::Sleeping, c, usize::MAX), (None, Dispatch::KeepPolling));
    }
}

#[test]
fn fixed_library_is_kept() {
    assert_eq!(dispatch(PlayerState::Sleeping, PlayerCommand::WakeTo3, 5), (None, Dispatch::Load(Source::Next)));
}

#[test]
fn playing_player_dispatch() {
    let n = PlayerState::Normal;
    assert_eq!(dispatch(n, PlayerCommand::Sleep, 0).1, Dispatch::Sleep);
    assert_eq!(dispatch(n, PlayerCommand::More, 0).1, Dispatch::Load(Source::More));
    assert_eq!(dispatch(n, PlayerCommand::Diff, 0).1, Dispatch::Load(Source::Diff));
    assert_eq!(dispatch(n, PlayerCommand::Clone_4, 0).1, Dispatch::Load(Source::Tagged));
    assert_eq!(dispatch(n, PlayerCommand::Reset, 0).1, Dispatch::Load(Source::Next));
    assert_eq!(dispatch(n, PlayerCommand::Skip_F, 0).1, Dispatch::Seek(30));
    assert_eq!(dispatch(n, PlayerCommand::Skip_R, 0).1, Dispatch::Seek(-30));
    assert_eq!(dispatch(n, PlayerCommand::Pause, 0).1, Dispatch::Load(Source::Empty));
    assert_eq!(next_state(n, Dispatch::Sleep), PlayerState::Sleeping);
    assert_eq!(next_state(PlayerState::Sleeping, Dispatch::Load(Source::Next)), PlayerState::Normal);
    assert_eq!(next_state(n, Dispatch::Seek(30)), PlayerState::Normal);
}

#[test]
fn wake_routing_by_mode() {
    assert_eq!(route_wake(true, PlayerCommand::WakeTo2), (PlayerCommand::WakeTo2, PlayerCommand::Sleep));
    assert_eq!(route_wake(false, PlayerCommand::WakeTo2), (PlayerCommand::Sleep, PlayerCommand::WakeTo2));
}

#[test]
fn buttons_map_to_commands() {
    assert_eq!(button_command(ManagedEvent::M1), Some(PlayerCommand::Skip_R));
    assert_eq!(button_command(ManagedEvent::M2), Some(PlayerCommand::Skip_F));
    assert_eq!(button_command(ManagedEvent::M3), Some(PlayerCommand::Reset));
    assert_eq!(button_command(ManagedEvent::N), None);
}

#[test]
fn engine_calls() {
    assert_eq!(engine_command("clone"), EngineAction::Send(PlayerCommand::Clone_4));
    assert_eq!(engine_command("more"), EngineAction::Send(PlayerCommand::More));
    assert_eq!(engine_command("diff"), EngineAction::Send(PlayerCommand::Diff));
    assert_eq!(engine_command("quit"), EngineAction::Quit);
    assert_eq!(engine_command("7"), EngineAction::Switch(7));
    assert_eq!(engine_command("+3"), EngineAction::Switch(3));
    assert_eq!(engine_command("x"), EngineAction::Switch(0));
    assert_eq!(engine_command(""), EngineAction::Switch(0));
    assert_eq!(engine_command("99999999999999999999999"), EngineAction::Switch(0));
}

#[test]
fn viewports_per_channel() {
    assert_eq!(viewport(0, 1280, 720), Some((0, 0, 1280, 720)));
    assert_eq!(viewport(1, 1280, 720), Some((0, 360, 640, 360)));
    assert_eq!(viewport(2, 1280, 720), Some((640, 360, 640, 360)));
    assert_eq!(viewport(3, 1281, 721), Some((0, 0, 640, 360)));
    assert_eq!(viewport(4, 1280, 720), Some((640, 0, 640, 360)));
    assert_eq!(viewport(5, 1280, 720), None);
    assert_eq!(viewport(3, -3, -5), Some((0, 0, -1, -2)));
}
