use stitchlands::cli::{headless_run_is_over, CliArgs, CliOptions, ModeArg, RunMode};
use stitchlands::fixed_point::Q40p24;
use stitchlands::playback::{
    ensure_playback_resource, Key, KeyCodeToCommandMap, KitCommand, KitCommandType, PlayBackCommand, Playback, Tick,
};

fn cmd(c: KitCommandType) -> KitCommand {
    KitCommand { command_type: c, tick_sent: Tick(0) }
}

#[test]
fn playback_defaults_and_stepping() {
    let p = Playback::default();
    assert_eq!(p.time_per_tick_ms, 100);
    assert!(!p.is_paused);
    assert!(Playback::should_step(Some(&p)));
    assert!(Playback::should_step(None));
    let paused = Playback { is_paused: true, ..p };
    assert!(!Playback::should_step(Some(&paused)));
    let mut t = Tick(41);
    Playback::inc_tick(&mut t);
    assert_eq!(t, Tick(42));
}

#[test]
fn playback_commands_apply_in_order() {
    let mut p = Playback::default();
    let step = ensure_playback_resource(
        &mut p,
        &vec![
            cmd(KitCommandType::PlayBack(PlayBackCommand::TogglePaused)),
            cmd(KitCommandType::Save),
            cmd(KitCommandType::PlayBack(PlayBackCommand::SetTimePerTick(50))),
            cmd(KitCommandType::PlayBack(PlayBackCommand::TimePerTickMultiplier(Q40p24::from_raw(3 * 8_388_608)))),
        ],
    );
    assert!(p.is_paused);
    assert_eq!(p.time_per_tick_ms, 75);
    assert_eq!(step, 75);
    p.apply(PlayBackCommand::SetPaused(false));
    assert!(!p.is_paused);
    // Scaling by 0.8 of 75 ms rounds to 60 ms; a negative factor gives 0.
    p.apply(PlayBackCommand::TimePerTickMultiplier(Q40p24::from_raw(13_421_773)));
    assert_eq!(p.time_per_tick_ms, 60);
    p.apply(PlayBackCommand::TimePerTickMultiplier(Q40p24::from_int(-1)));
    assert_eq!(p.time_per_tick_ms, 0);
}

#[test]
fn cli_arguments_to_options() {
    let args = CliArgs { mode: ModeArg::Headless, ticks: Some(10), seed: 3, ..Default::default() };
    let opts = args.clone().into_options().unwrap();
    assert_eq!(opts, CliOptions { mode: RunMode::Headless, scenario: None, snapshot: None, ticks: Some(10), seed: 3 });
    assert!(!headless_run_is_over(&opts, Tick(9)));
    assert!(headless_run_is_over(&opts, Tick(10)));
    let missing = CliArgs { mode: ModeArg::Headless, ..Default::default() };
    assert!(missing.into_options().is_err());
    let live = CliArgs::default().into_options().unwrap();
    assert_eq!(live.mode, RunMode::Live);
    assert_eq!(live.seed, 1);
    assert!(!headless_run_is_over(&live, Tick(1_000)));
    assert_eq!(RunMode::from(ModeArg::Live), RunMode::Live);
}

#[test]
fn default_key_bindings() {
    let m = KeyCodeToCommandMap::default();
    assert_eq!(m.command_for(Key::Escape), Some(&KitCommandType::ExitToMenu));
    assert_eq!(m.command_for(Key::Enter), Some(&KitCommandType::LaunchGame));
    assert_eq!(m.command_for(Key::KeyP), Some(&KitCommandType::PlayBack(PlayBackCommand::TogglePaused)));
    // '[' slows the clock by 1.2, ']' speeds it up by 0.8 (in 40.24 fixed point).
    assert_eq!(
        m.command_for(Key::BracketLeft),
        Some(&KitCommandType::PlayBack(PlayBackCommand::TimePerTickMultiplier(Q40p24::from_raw(20_132_659))))
    );
    assert_eq!(
        m.command_for(Key::BracketRight),
        Some(&KitCommandType::PlayBack(PlayBackCommand::TimePerTickMultiplier(Q40p24::from_raw(13_421_773))))
    );
    assert_eq!(KeyCodeToCommandMap::new().command_for(Key::Escape), None);
    let mut p = Playback::default();
    if let Some(KitCommandType::PlayBack(c)) = m.command_for(Key::BracketLeft) {
        p.apply(*c);
    }
    assert_eq!(p.time_per_tick_ms, 120);
}
