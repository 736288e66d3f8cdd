use world_backup::config::settings_from_text;
use world_backup::cycle::plan_backups;
use world_backup::cycle::plan_removals;
use world_backup::cycle::start_cycle;
use world_backup::cycle::step;
use world_backup::cycle::Action;
use world_backup::cycle::Event;
use world_backup::cycle::Phase;
use world_backup::naming::archive_file_name;
use world_backup::naming::Timestamp;

const TEXT: &str = "intervalminutes=10\noutdir=/out\nmaxbackupsperworld=1\n[Worlds]\nAlpha=/w/alpha\nBeta=/w/beta\n";

#[test]
fn every_world_gets_an_archive_with_the_same_time() {
    let s = settings_from_text(TEXT).unwrap();
    let now = Timestamp { year: 2024, month: 6, day: 9, hour: 18, minute: 30, second: 0 };
    let jobs = plan_backups(&s, &now);
    assert_eq!(jobs.len(), 2);
    assert_eq!(jobs[0].world, "Alpha");
    assert_eq!(jobs[0].source, "/w/alpha");
    assert_eq!(jobs[0].file_name, "World Backup Alpha 09-06-2024 18_30_00.tar.gz");
    assert_eq!(jobs[1].world, "Beta");
    assert_eq!(jobs[1].source, "/w/beta");
    assert_eq!(jobs[1].file_name, "World Backup Beta 09-06-2024 18_30_00.tar.gz");
}

#[test]
fn cycle_start_reads_a_valid_time() {
    let s = settings_from_text(TEXT).unwrap();
    let start = start_cycle(&s).unwrap();
    let t = start.time;
    assert!((1..=12).contains(&t.month));
    assert!((1..=31).contains(&t.day));
    assert!(t.hour < 24 && t.minute < 60 && t.second < 60);
    assert_eq!(start.jobs.len(), 2);
    assert_eq!(start.jobs[0].file_name, archive_file_name("Alpha", &t));
    assert_eq!(start.jobs[1].file_name, archive_file_name("Beta", &t));
}

#[test]
fn healthy_world_pruned_when_another_fails() {
    // Beta's source is gone this cycle: only Alpha's new archive is on disk,
    // and Alpha's retention still runs.
    let s = settings_from_text(TEXT).unwrap();
    let listing = vec![
        "World Backup Alpha 08-06-2024 18_30_00.tar.gz".to_string(),
        "World Backup Alpha 09-06-2024 18_30_00.tar.gz".to_string(),
        "World Backup Beta 08-06-2024 18_30_00.tar.gz".to_string(),
    ];
    let removals = plan_removals(&listing, &s);
    assert_eq!(removals.len(), 2);
    assert_eq!(removals[0], vec!["World Backup Alpha 08-06-2024 18_30_00.tar.gz".to_string()]);
    assert!(removals[1].is_empty());
}

#[test]
fn scheduler_runs_a_cycle_then_sleeps_for_the_loaded_interval() {
    let (p1, a1) = step(Phase::Idle, Event::Wake);
    assert_eq!(a1, Action::LoadSettings);
    assert_eq!(p1, Phase::Running { interval_secs: None });
    let (p2, a2) = step(p1, Event::SettingsLoaded { interval_secs: 600 });
    assert_eq!(a2, Action::BackupAndPrune);
    let (p3, a3) = step(p2, Event::CycleDone);
    assert_eq!(a3, Action::Sleep { secs: 600 });
    assert_eq!(p3, Phase::Idle);
}

#[test]
fn scheduler_exits_on_settings_failure() {
    assert_eq!(step(Phase::Idle, Event::SettingsFailed), (Phase::Idle, Action::Exit));
    let running = Phase::Running { interval_secs: None };
    assert_eq!(step(running, Event::SettingsFailed), (Phase::Idle, Action::Exit));
}

#[test]
fn scheduler_ignores_events_out_of_turn() {
    assert_eq!(step(Phase::Idle, Event::CycleDone), (Phase::Idle, Action::Ignore));
    let running = Phase::Running { interval_secs: Some(5) };
    assert_eq!(step(running, Event::Wake), (running, Action::Ignore));
    assert_eq!(step(running, Event::SettingsLoaded { interval_secs: 7 }), (running, Action::Ignore));
}
