//! One backup cycle, as decisions: which archive each world gets, and which
//! archives each world's retention removes. The caller does the file work.

use vstd::prelude::*;
use crate::config::Settings;
use crate::naming::archive_file_name;
use crate::naming::archive_name;
use crate::naming::local_now;
use crate::naming::Timestamp;
use crate::retention::files_to_remove;
use crate::retention::removal;
use crate::retention::texts;

verus! {

/// One archive to take: of `source`, as `file_name` in the output directory.
#[derive(Clone, Debug, PartialEq, Eq)]
pub struct BackupJob {
    pub world: String,
    pub source: String,
    pub file_name: String,
}

/// The archives a cycle that started at `now` takes: one for each world, in
/// the order of `settings.worlds`, all named with the same time.
pub fn plan_backups(settings: &Settings, now: &Timestamp) -> (r: Vec<BackupJob>)
    requires
        now.wf(),
    ensures
        r@.len() == settings.worlds@.len(),
        forall|i: int|
            0 <= i < r@.len() ==> {
                &&& (#[trigger] r@[i]).world@ == settings.worlds@[i].name@
                &&& r@[i].source@ == settings.worlds@[i].source@
                &&& r@[i].file_name@ == archive_name(settings.worlds@[i].name@, *now)
            },
{
    let mut r: Vec<BackupJob> = Vec::new();
    let mut i: usize = 0;
    while i < settings.worlds.len()
        invariant
            now.wf(),
            i <= settings.worlds@.len(),
            r@.len() == i,
            forall|k: int|
                0 <= k < i ==> {
                    &&& (#[trigger] r@[k]).world@ == settings.worlds@[k].name@
                    &&& r@[k].source@ == settings.worlds@[k].source@
                    &&& r@[k].file_name@ == archive_name(settings.worlds@[k].name@, *now)
                },
        decreases settings.worlds.len() - i,
    {
        let w = &settings.worlds[i];
        let file_name = archive_file_name(w.name.as_str(), now);
        r.push(BackupJob { world: w.name.clone(), source: w.source.clone(), file_name });
        i = i + 1;
    }
    r
}

/// A cycle's start: the local time, read once, and the archives to take,
/// all named with that time.
pub struct CycleStart {
    pub time: Timestamp,
    pub jobs: Vec<BackupJob>,
}

/// Reads the clock and plans the cycle's archives; `None` when the clock
/// gives no usable local time.
pub fn start_cycle(settings: &Settings) -> (r: Option<CycleStart>)
    ensures
        r matches Some(c) ==> {
            &&& c.time.wf()
            &&& c.jobs@.len() == settings.worlds@.len()
            &&& forall|i: int|
                0 <= i < c.jobs@.len() ==> {
                    &&& (#[trigger] c.jobs@[i]).world@ == settings.worlds@[i].name@
                    &&& c.jobs@[i].source@ == settings.worlds@[i].source@
                    &&& c.jobs@[i].file_name@ == archive_name(settings.worlds@[i].name@, c.time)
                }
        },
{
    let time = match local_now() {
        Some(t) => t,
        None => return None,
    };
    let jobs = plan_backups(settings, &time);
    Some(CycleStart { time, jobs })
}

/// For each world, in the order of `settings.worlds`, the archives that the
/// retention pass removes from the listing `names` of the output directory's
/// regular files (taken once, before any removal).
pub fn plan_removals(names: &Vec<String>, settings: &Settings) -> (r: Vec<Vec<String>>)
    ensures
        r@.len() == settings.worlds@.len(),
        forall|i: int|
            0 <= i < r@.len() ==> texts((#[trigger] r@[i])@) == removal(
                texts(names@),
                settings.worlds@[i].name@,
                settings.retention_cap as nat,
            ),
{
    let mut r: Vec<Vec<String>> = Vec::new();
    let mut i: usize = 0;
    while i < settings.worlds.len()
        invariant
            i <= settings.worlds@.len(),
            r@.len() == i,
            forall|k: int|
                0 <= k < i ==> texts((#[trigger] r@[k])@) == removal(
                    texts(names@),
                    settings.worlds@[k].name@,
                    settings.retention_cap as nat,
                ),
        decreases settings.worlds.len() - i,
    {
        r.push(files_to_remove(names, settings.worlds[i].name.as_str(), settings.retention_cap));
        i = i + 1;
    }
    r
}

/// Where the scheduler stands: asleep between cycles, or inside one, with the
/// interval that the cycle's settings gave once they are read.
#[derive(Clone, Copy, Debug, PartialEq, Eq, Structural)]
pub enum Phase {
    Idle,
    Running { interval_secs: Option<u64> },
}

/// What the caller reports back to the scheduler.
#[derive(Clone, Copy, Debug, PartialEq, Eq, Structural)]
pub enum Event {
    /// The process started, or the sleep ended.
    Wake,
    /// The settings were read and checked; they give this interval.
    SettingsLoaded { interval_secs: u64 },
    /// The settings could not be read or are invalid.
    SettingsFailed,
    /// Every world was archived (or failed) and pruned.
    CycleDone,
}

/// What the scheduler asks the caller to do next.
#[derive(Clone, Copy, Debug, PartialEq, Eq, Structural)]
pub enum Action {
    /// Read and check the settings afresh.
    LoadSettings,
    /// Archive every world, then prune every world.
    BackupAndPrune,
    /// Sleep this many seconds, then report `Wake`.
    Sleep { secs: u64 },
    /// End the process with a failure status.
    Exit,
    /// Nothing: the event does not fit the phase.
    Ignore,
}

/// The scheduler's transitions. A cycle starts on waking, reads the
/// settings, does its work, and ends in a sleep of the interval that it read;
/// a settings failure is fatal in any phase.
pub open spec fn transition(phase: Phase, event: Event) -> (Phase, Action) {
    match (phase, event) {
        (_, Event::SettingsFailed) => (Phase::Idle, Action::Exit),
        (Phase::Idle, Event::Wake) => (Phase::Running { interval_secs: None }, Action::LoadSettings),
        (Phase::Running { interval_secs: None }, Event::SettingsLoaded { interval_secs }) => (
            Phase::Running { interval_secs: Some(interval_secs) },
            Action::BackupAndPrune,
        ),
        (Phase::Running { interval_secs: Some(secs) }, Event::CycleDone) => (
            Phase::Idle,
            Action::Sleep { secs },
        ),
        _ => (phase, Action::Ignore),
    }
}

/// The scheduler's next phase and the action it asks for.
pub fn step(phase: Phase, event: Event) -> (r: (Phase, Action))
    ensures
        r == transition(phase, event),
{
    match (phase, event) {
        (_, Event::SettingsFailed) => (Phase::Idle, Action::Exit),
        (Phase::Idle, Event::Wake) => (Phase::Running { interval_secs: None }, Action::LoadSettings),
        (Phase::Running { interval_secs: None }, Event::SettingsLoaded { interval_secs }) => (
            Phase::Running { interval_secs: Some(interval_secs) },
            Action::BackupAndPrune,
        ),
        (Phase::Running { interval_secs: Some(secs) }, Event::CycleDone) => (
            Phase::Idle,
            Action::Sleep { secs },
        ),
        _ => (phase, Action::Ignore),
    }
}

} // verus!
