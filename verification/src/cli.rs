//! Command-line options of the runner and the decisions taken from them.
use vstd::prelude::*;
use vstd::std_specs::convert::FromSpecImpl;
use crate::playback::Tick;

verus! {

/// Whether the runner opens a window or runs a fixed number of ticks without one.
#[derive(Debug, Clone, Copy, PartialEq, Eq, Structural)]
pub enum ModeArg {
    Live,
    Headless,
}

/// How the simulation runs.
#[derive(Debug, Clone, Copy, PartialEq, Eq, Structural)]
pub enum RunMode {
    Live,
    Headless,
}

impl From<ModeArg> for RunMode {
    fn from(value: ModeArg) -> (r: Self) {
        match value {
            ModeArg::Live => RunMode::Live,
            ModeArg::Headless => RunMode::Headless,
        }
    }
}

impl FromSpecImpl<ModeArg> for RunMode {
    open spec fn obeys_from_spec() -> bool {
        true
    }

    open spec fn from_spec(value: ModeArg) -> RunMode {
        match value {
            ModeArg::Live => RunMode::Live,
            ModeArg::Headless => RunMode::Headless,
        }
    }
}

/// The arguments of the runner: mode (live by default), a scenario or a
/// snapshot to load, the number of ticks (needed when headless) and the seed
/// (1 by default).
#[derive(Debug, Clone, PartialEq, Eq)]
pub struct CliArgs {
    pub mode: ModeArg,
    pub scenario: Option<String>,
    pub snapshot: Option<String>,
    pub ticks: Option<u64>,
    pub seed: u64,
}

/// The options the runner works with.
#[derive(Debug, Clone, PartialEq, Eq)]
pub struct CliOptions {
    pub mode: RunMode,
    pub scenario: Option<String>,
    pub snapshot: Option<String>,
    pub ticks: Option<u64>,
    pub seed: u64,
}

impl Default for CliArgs {
    /// Live mode, nothing to load, no tick limit, seed 1.
    fn default() -> (r: Self)
        ensures
            r.mode == ModeArg::Live,
            r.scenario is None,
            r.snapshot is None,
            r.ticks is None,
            r.seed == 1,
    {
        CliArgs { mode: ModeArg::Live, scenario: None, snapshot: None, ticks: None, seed: 1 }
    }
}

/// The options the arguments `a` give.
pub open spec fn options_of(a: CliArgs) -> CliOptions {
    CliOptions {
        mode: match a.mode {
            ModeArg::Live => RunMode::Live,
            ModeArg::Headless => RunMode::Headless,
        },
        scenario: a.scenario,
        snapshot: a.snapshot,
        ticks: a.ticks,
        seed: a.seed,
    }
}

impl CliArgs {
    /// The arguments are complete: a headless run names its number of ticks.
    pub open spec fn complete(&self) -> bool {
        self.mode == ModeArg::Headless ==> self.ticks is Some
    }

    /// Check that a headless run names its number of ticks, and turn the
    /// arguments into options.
    pub fn into_options(self) -> (r: Result<CliOptions, String>)
        ensures
            self.complete() ==> r == Ok::<CliOptions, String>(options_of(self)),
            !self.complete() ==> (r matches Err(e) && e@ == "the following required arguments were not provided: --ticks <TICKS>"@),
    {
        if self.mode == ModeArg::Headless && self.ticks.is_none() {
            return Err(String::from_str("the following required arguments were not provided: --ticks <TICKS>"));
        }
        let mode = RunMode::from(self.mode);
        Ok(CliOptions { mode, scenario: self.scenario, snapshot: self.snapshot, ticks: self.ticks, seed: self.seed })
    }
}

/// A headless run with a tick limit is over once the tick counter, taken as
/// an unsigned number, reaches the limit.
pub open spec fn run_is_over(opts: CliOptions, tick: Tick) -> bool {
    opts.mode == RunMode::Headless && opts.ticks is Some && (tick.0 as u64) >= opts.ticks->0
}

/// Whether the run ends after this tick (`run_is_over`).
pub fn headless_run_is_over(opts: &CliOptions, tick: Tick) -> (r: bool)
    ensures
        r == run_is_over(*opts, tick),
{
    if opts.mode != RunMode::Headless {
        return false;
    }
    match opts.ticks {
        Some(limit) => (tick.0 as u64) >= limit,
        None => false,
    }
}

} // verus!
