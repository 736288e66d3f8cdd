use world_backup::config::add_world;
use world_backup::config::check_directories;
use world_backup::config::parse_u64;
use world_backup::config::settings_from_text;
use world_backup::config::ConfigError;
use world_backup::config::WorldEntry;

const GOOD: &str = "intervalminutes=30\noutdir=/srv/backups\nmaxbackupsperworld=5\n\n[Worlds]\nAlpha=/srv/worlds/alpha\nBeta=/srv/worlds/beta\n";

#[test]
fn parse_u64_reads_digits() {
    assert_eq!(parse_u64("0"), Some(0));
    assert_eq!(parse_u64("42"), Some(42));
    assert_eq!(parse_u64("+42"), Some(42));
    assert_eq!(parse_u64("007"), Some(7));
    assert_eq!(parse_u64("18446744073709551615"), Some(u64::MAX));
}

#[test]
fn parse_u64_refuses_other_text() {
    assert_eq!(parse_u64(""), None);
    assert_eq!(parse_u64("+"), None);
    assert_eq!(parse_u64("-1"), None);
    assert_eq!(parse_u64("12a"), None);
    assert_eq!(parse_u64(" 1"), None);
    assert_eq!(parse_u64("18446744073709551616"), None);
    assert_eq!(parse_u64("99999999999999999999x"), None);
}

#[test]
fn settings_read_from_text() {
    let s = settings_from_text(GOOD).unwrap();
    assert_eq!(s.interval_secs, 1800);
    assert_eq!(s.output_dir, "/srv/backups");
    assert_eq!(s.retention_cap, 5);
    assert_eq!(
        s.worlds,
        vec![
            WorldEntry { name: "Alpha".to_string(), source: "/srv/worlds/alpha".to_string() },
            WorldEntry { name: "Beta".to_string(), source: "/srv/worlds/beta".to_string() },
        ]
    );
}

#[test]
fn world_named_twice_takes_the_later_directory() {
    let text = "intervalminutes=1\noutdir=o\nmaxbackupsperworld=0\n[Worlds]\nA=/x\nB=/y\nA=/z\n";
    let s = settings_from_text(text).unwrap();
    assert_eq!(
        s.worlds,
        vec![
            WorldEntry { name: "A".to_string(), source: "/z".to_string() },
            WorldEntry { name: "B".to_string(), source: "/y".to_string() },
        ]
    );
}

#[test]
fn add_world_replaces_or_appends() {
    let mut w: Vec<WorldEntry> = Vec::new();
    add_world(&mut w, "A".to_string(), "1".to_string());
    add_world(&mut w, "B".to_string(), "2".to_string());
    add_world(&mut w, "A".to_string(), "3".to_string());
    assert_eq!(w.len(), 2);
    assert_eq!(w[0].source, "3");
    assert_eq!(w[1].source, "2");
}

#[test]
fn empty_worlds_section_is_accepted() {
    let s = settings_from_text("intervalminutes=1\noutdir=o\nmaxbackupsperworld=3\n[Worlds]\n").unwrap();
    assert!(s.worlds.is_empty());
}

#[test]
fn malformed_text_is_an_error() {
    assert_eq!(settings_from_text("intervalminutes=1\n[Worlds\nA=1\n"), Err(ConfigError::Malformed));
}

#[test]
fn missing_interval_is_an_error() {
    let text = "outdir=o\nmaxbackupsperworld=3\n[Worlds]\nA=/a\n";
    assert_eq!(settings_from_text(text), Err(ConfigError::MissingInterval));
}

#[test]
fn invalid_interval_is_an_error() {
    for v in ["0", "abc", "-5", "307445734561825861"] {
        let text = format!("intervalminutes={}\noutdir=o\nmaxbackupsperworld=3\n[Worlds]\nA=/a\n", v);
        assert_eq!(settings_from_text(&text), Err(ConfigError::InvalidInterval));
    }
    let text = "intervalminutes=307445734561825860\noutdir=o\nmaxbackupsperworld=3\n[Worlds]\nA=/a\n";
    assert_eq!(settings_from_text(text).unwrap().interval_secs, 307445734561825860 * 60);
}

#[test]
fn missing_output_dir_is_an_error() {
    let text = "intervalminutes=1\nmaxbackupsperworld=3\n[Worlds]\nA=/a\n";
    assert_eq!(settings_from_text(text), Err(ConfigError::MissingOutputDir));
}

#[test]
fn missing_cap_is_an_error() {
    let text = "intervalminutes=1\noutdir=o\n[Worlds]\nA=/a\n";
    assert_eq!(settings_from_text(text), Err(ConfigError::MissingRetentionCap));
}

#[test]
fn invalid_cap_is_an_error() {
    let text = "intervalminutes=1\noutdir=o\nmaxbackupsperworld=many\n[Worlds]\nA=/a\n";
    assert_eq!(settings_from_text(text), Err(ConfigError::InvalidRetentionCap));
}

#[test]
fn missing_worlds_section_is_an_error() {
    let text = "intervalminutes=1\noutdir=o\nmaxbackupsperworld=3\n[Other]\nA=/a\n";
    assert_eq!(settings_from_text(text), Err(ConfigError::NoWorldsSection));
}

#[test]
fn missing_output_directory_is_fatal() {
    let s = settings_from_text(GOOD).unwrap();
    assert_eq!(check_directories(&s, false, &vec![true, true]), Err(ConfigError::OutputDirNotFound));
    assert_eq!(check_directories(&s, false, &vec![false, false]), Err(ConfigError::OutputDirNotFound));
}

#[test]
fn missing_world_directory_names_the_first() {
    let s = settings_from_text(GOOD).unwrap();
    assert_eq!(check_directories(&s, true, &vec![true, false]), Err(ConfigError::WorldDirNotFound(1)));
    assert_eq!(check_directories(&s, true, &vec![false, false]), Err(ConfigError::WorldDirNotFound(0)));
    assert_eq!(check_directories(&s, true, &vec![true, true]), Ok(()));
}
