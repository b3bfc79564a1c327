//! The simulation clock: the tick counter, pausing and the time each tick
//! takes, and the commands that change them.
use vstd::prelude::*;
use crate::fixed_point::{Q40p24, div_round, int_raw, mul_raw, scale};

verus! {

/// The number of steps the simulation has taken.
#[derive(Debug, Clone, Copy, PartialEq, Eq, Structural)]
pub struct Tick(pub i32);

/// A saved game's name.
#[derive(Debug, Clone, PartialEq, Eq)]
pub struct GameId(pub String);

/// Whether the simulation steps, and the time (in milliseconds) between steps.
#[derive(Debug, Clone, Copy, PartialEq, Eq, Structural)]
pub struct Playback {
    pub time_per_tick_ms: u64,
    pub is_paused: bool,
}

impl Default for Playback {
    /// Running, one step every 100 ms.
    fn default() -> (r: Self)
        ensures
            r.time_per_tick_ms == 100,
            !r.is_paused,
    {
        Playback { time_per_tick_ms: 100, is_paused: false }
    }
}

/// Commands that change the playback.
#[derive(Debug, Clone, Copy, PartialEq, Eq, Structural)]
pub enum PlayBackCommand {
    /// Set the time per tick, in milliseconds.
    SetTimePerTick(u64),
    /// Scale the time per tick.
    TimePerTickMultiplier(Q40p24),
    SetPaused(bool),
    TogglePaused,
}

/// Commands a player can send to the simulation kit.
#[derive(Debug, Clone, PartialEq, Eq)]
pub enum KitCommandType {
    PlayBack(PlayBackCommand),
    LaunchGame,
    LoadSave(GameId),
    Save,
    ExitToMenu,
}

/// A command together with the tick it was sent at.
#[derive(Debug, Clone, PartialEq, Eq)]
pub struct KitCommand {
    pub command_type: KitCommandType,
    pub tick_sent: Tick,
}

/// The time per tick after scaling `ms` milliseconds by `mult`: the product,
/// rounded to the nearest millisecond, and none when negative.
pub open spec fn scaled_ms(ms: u64, mult: Q40p24) -> u64 {
    let p = mul_raw(mult.0, int_raw((ms as i64) as int));
    let n = div_round(p as int, scale());
    if n > 0 {
        n as u64
    } else {
        0
    }
}

/// The playback after command `cmd`.
pub open spec fn playback_after(p: Playback, cmd: PlayBackCommand) -> Playback {
    match cmd {
        PlayBackCommand::SetTimePerTick(ms) => Playback { time_per_tick_ms: ms, ..p },
        PlayBackCommand::SetPaused(b) => Playback { is_paused: b, ..p },
        PlayBackCommand::TogglePaused => Playback { is_paused: !p.is_paused, ..p },
        PlayBackCommand::TimePerTickMultiplier(m) => Playback {
            time_per_tick_ms: scaled_ms(p.time_per_tick_ms, m),
            ..p
        },
    }
}

/// The playback after the playback commands among `cmds`, in order; other
/// commands leave it unchanged.
pub open spec fn playback_after_all(p: Playback, cmds: Seq<KitCommandType>) -> Playback
    decreases cmds.len(),
{
    if cmds.len() == 0 {
        p
    } else {
        let q = playback_after_all(p, cmds.drop_last());
        match cmds.last() {
            KitCommandType::PlayBack(c) => playback_after(q, c),
            _ => q,
        }
    }
}

impl Playback {
    /// Whether the simulation steps this frame: unless it is paused (and
    /// always when there is no playback).
    pub fn should_step(playback: Option<&Playback>) -> (r: bool)
        ensures
            r == match playback {
                Some(p) => !p.is_paused,
                None => true,
            },
    {
        match playback {
            Some(p) => !p.is_paused,
            None => true,
        }
    }

    /// Advance the tick counter by one.
    pub fn inc_tick(tick: &mut Tick)
        requires
            old(tick).0 < i32::MAX,
        ensures
            final(tick).0 == old(tick).0 + 1,
    {
        tick.0 = tick.0 + 1;
    }

    /// Apply one playback command.
    pub fn apply(&mut self, cmd: PlayBackCommand)
        ensures
            *final(self) == playback_after(*old(self), cmd),
    {
        match cmd {
            PlayBackCommand::SetTimePerTick(ms) => {
                self.time_per_tick_ms = ms;
            },
            PlayBackCommand::SetPaused(paused) => {
                self.is_paused = paused;
            },
            PlayBackCommand::TogglePaused => {
                self.is_paused = !self.is_paused;
            },
            PlayBackCommand::TimePerTickMultiplier(mult) => {
                let millis = self.time_per_tick_ms as i64;
                let scaled = mult * millis;
                let ms: u64 = u64::from(scaled);
                self.time_per_tick_ms = ms;
            },
        }
    }
}

/// Apply the playback commands among `commands` in order, and give the time
/// per tick the fixed-step timer is to use afterwards.
pub fn ensure_playback_resource(playback: &mut Playback, commands: &Vec<KitCommand>) -> (timestep_ms: u64)
    ensures
        *final(playback) == playback_after_all(*old(playback), commands@.map_values(|c: KitCommand| c.command_type)),
        timestep_ms == final(playback).time_per_tick_ms,
{
    let ghost cmds = commands@.map_values(|c: KitCommand| c.command_type);
    let mut i: usize = 0;
    while i < commands.len()
        invariant
            i <= commands@.len(),
            cmds == commands@.map_values(|c: KitCommand| c.command_type),
            *playback == playback_after_all(*old(playback), cmds.take(i as int)),
        decreases commands@.len() - i,
    {
        proof {
            assert(cmds.take(i + 1).drop_last() =~= cmds.take(i as int));
        }
        match &commands[i].command_type {
            KitCommandType::PlayBack(cmd) => {
                playback.apply(*cmd);
            },
            _ => {},
        }
        i = i + 1;
    }
    proof {
        assert(cmds.take(commands@.len() as int) =~= cmds);
    }
    playback.time_per_tick_ms
}


/// Keys the kit binds to commands.
#[derive(Debug, Clone, Copy, PartialEq, Eq, Structural, Hash)]
pub enum Key {
    Escape,
    Enter,
    KeyP,
    BracketLeft,
    BracketRight,
}

/// Which command each bound key sends.
#[derive(Debug, Clone, PartialEq, Eq)]
pub struct KeyCodeToCommandMap {
    pub map: Vec<(Key, KitCommandType)>,
}

/// 1.2 in Q40.24, rounded to the nearest raw unit.
pub open spec fn faster_raw() -> i64 {
    20132659
}

/// 0.8 in Q40.24, rounded to the nearest raw unit.
pub open spec fn slower_raw() -> i64 {
    13421773
}

/// The command `key` is bound to in `map` (its first binding).
pub open spec fn bound_command(map: Seq<(Key, KitCommandType)>, key: Key) -> Option<KitCommandType>
    decreases map.len(),
{
    if map.len() == 0 {
        None
    } else if map[0].0 == key {
        Some(map[0].1)
    } else {
        bound_command(map.drop_first(), key)
    }
}

impl KeyCodeToCommandMap {
    /// No binding.
    pub fn new() -> (r: Self)
        ensures
            r.map@.len() == 0,
    {
        KeyCodeToCommandMap { map: Vec::new() }
    }

    /// The command `key` sends, if it is bound.
    pub fn command_for(&self, key: Key) -> (r: Option<&KitCommandType>)
        ensures
            match bound_command(self.map@, key) {
                Some(c) => r == Some(&c),
                None => r is None,
            },
    {
        let mut i: usize = 0;
        assert(self.map@.skip(0) =~= self.map@);
        while i < self.map.len()
            invariant
                i <= self.map@.len(),
                bound_command(self.map@, key) == bound_command(self.map@.skip(i as int), key),
            decreases self.map@.len() - i,
        {
            assert(self.map@.skip(i as int).drop_first() =~= self.map@.skip(i + 1));
            if self.map[i].0 == key {
                return Some(&self.map[i].1);
            }
            i = i + 1;
        }
        None
    }
}

impl Default for KeyCodeToCommandMap {
    /// Escape leaves to the menu, Enter launches the game, P pauses or
    /// resumes, '[' makes ticks 1.2 times longer and ']' 0.8 times.
    fn default() -> (r: Self)
        ensures
            r.map@ == seq![
                (Key::Escape, KitCommandType::ExitToMenu),
                (Key::Enter, KitCommandType::LaunchGame),
                (Key::KeyP, KitCommandType::PlayBack(PlayBackCommand::TogglePaused)),
                (Key::BracketLeft, KitCommandType::PlayBack(PlayBackCommand::TimePerTickMultiplier(Q40p24(faster_raw())))),
                (Key::BracketRight, KitCommandType::PlayBack(PlayBackCommand::TimePerTickMultiplier(Q40p24(slower_raw())))),
            ],
    {
        let mut map: Vec<(Key, KitCommandType)> = Vec::new();
        map.push((Key::Escape, KitCommandType::ExitToMenu));
        map.push((Key::Enter, KitCommandType::LaunchGame));
        map.push((Key::KeyP, KitCommandType::PlayBack(PlayBackCommand::TogglePaused)));
        map.push((Key::BracketLeft, KitCommandType::PlayBack(PlayBackCommand::TimePerTickMultiplier(Q40p24::from_raw(20132659)))));
        map.push((Key::BracketRight, KitCommandType::PlayBack(PlayBackCommand::TimePerTickMultiplier(Q40p24::from_raw(13421773)))));
        KeyCodeToCommandMap { map }
    }
}

} // verus!
