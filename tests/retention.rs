use world_backup::retention::files_to_remove;
use world_backup::retention::matching_archives;
use world_backup::retention::sort_names;

fn names(v: &[&str]) -> Vec<String> {
    v.iter().map(|s| s.to_string()).collect()
}

fn without(listing: &[String], removed: &[String]) -> Vec<String> {
    listing.iter().filter(|n| !removed.contains(*n)).cloned().collect()
}

#[test]
fn sort_names_orders_by_text() {
    let v = names(&["b", "a", "ab", "B", "a"]);
    assert_eq!(sort_names(&v), names(&["B", "a", "a", "ab", "b"]));
}

#[test]
fn matching_keeps_listing_order() {
    let v = names(&[
        "World Backup Beta 02-01-2024 00_00_00.tar.gz",
        "notes.txt",
        "World Backup Alpha 03-01-2024 00_00_00.tar.gz",
        "World Backup Alpha 01-01-2024 00_00_00.tar.gz",
    ]);
    assert_eq!(
        matching_archives(&v, "Alpha"),
        names(&[
            "World Backup Alpha 03-01-2024 00_00_00.tar.gz",
            "World Backup Alpha 01-01-2024 00_00_00.tar.gz",
        ])
    );
}

#[test]
fn nothing_removed_at_or_under_cap() {
    let v = names(&[
        "World Backup Alpha 01-01-2024 00_00_00.tar.gz",
        "World Backup Alpha 02-01-2024 00_00_00.tar.gz",
    ]);
    assert!(files_to_remove(&v, "Alpha", 2).is_empty());
    assert!(files_to_remove(&v, "Alpha", 5).is_empty());
    assert!(files_to_remove(&Vec::new(), "Alpha", 0).is_empty());
}

#[test]
fn cap_zero_removes_every_archive() {
    let v = names(&[
        "World Backup Alpha 02-01-2024 00_00_00.tar.gz",
        "World Backup Alpha 01-01-2024 00_00_00.tar.gz",
    ]);
    assert_eq!(
        files_to_remove(&v, "Alpha", 0),
        names(&[
            "World Backup Alpha 01-01-2024 00_00_00.tar.gz",
            "World Backup Alpha 02-01-2024 00_00_00.tar.gz",
        ])
    );
}

#[test]
fn removal_goes_by_text_not_by_time() {
    // 15 January, 20 January, 1 February: by text, 01-02 comes first.
    let v = names(&[
        "World Backup Alpha 15-01-2024 10_00_00.tar.gz",
        "World Backup Alpha 20-01-2024 10_00_00.tar.gz",
        "World Backup Alpha 01-02-2024 10_00_00.tar.gz",
    ]);
    let removed = files_to_remove(&v, "Alpha", 1);
    assert_eq!(
        removed,
        names(&[
            "World Backup Alpha 01-02-2024 10_00_00.tar.gz",
            "World Backup Alpha 15-01-2024 10_00_00.tar.gz",
        ])
    );
    assert_eq!(
        without(&v, &removed),
        names(&["World Backup Alpha 20-01-2024 10_00_00.tar.gz"])
    );
}

#[test]
fn removal_takes_the_earliest_names() {
    let v = names(&[
        "World Backup Alpha 01-01-2024 00_00_04.tar.gz",
        "World Backup Alpha 01-01-2024 00_00_01.tar.gz",
        "World Backup Alpha 01-01-2024 00_00_05.tar.gz",
        "World Backup Alpha 01-01-2024 00_00_03.tar.gz",
        "World Backup Alpha 01-01-2024 00_00_02.tar.gz",
    ]);
    assert_eq!(
        files_to_remove(&v, "Alpha", 2),
        names(&[
            "World Backup Alpha 01-01-2024 00_00_01.tar.gz",
            "World Backup Alpha 01-01-2024 00_00_02.tar.gz",
            "World Backup Alpha 01-01-2024 00_00_03.tar.gz",
        ])
    );
}

#[test]
fn substring_collision_counts_other_worlds_archives() {
    let v = names(&[
        "World Backup Alpha 01-01-2024 00_00_00.tar.gz",
        "World Backup Alpha2 01-01-2024 00_00_00.tar.gz",
        "World Backup Alpha2 02-01-2024 00_00_00.tar.gz",
    ]);
    // All three count as Alpha's; with a cap of two, Alpha's pass removes the
    // earliest by text, which is Alpha's own only archive.
    assert_eq!(matching_archives(&v, "Alpha").len(), 3);
    assert_eq!(
        files_to_remove(&v, "Alpha", 2),
        names(&["World Backup Alpha 01-01-2024 00_00_00.tar.gz"])
    );
    assert!(files_to_remove(&v, "Alpha2", 2).is_empty());
}

#[test]
fn second_pruning_pass_removes_nothing() {
    let v = names(&[
        "World Backup Alpha 01-01-2024 00_00_00.tar.gz",
        "World Backup Alpha 02-01-2024 00_00_00.tar.gz",
        "World Backup Alpha 03-01-2024 00_00_00.tar.gz",
        "World Backup Beta 01-01-2024 00_00_00.tar.gz",
    ]);
    let first = files_to_remove(&v, "Alpha", 1);
    assert_eq!(first.len(), 2);
    let after = without(&v, &first);
    assert!(files_to_remove(&after, "Alpha", 1).is_empty());
    assert!(files_to_remove(&after, "Beta", 1).is_empty());
}

#[test]
fn every_world_within_cap_after_repeated_cycles() {
    let cap = 2;
    let worlds = ["Alpha", "Beta"];
    let mut dir: Vec<String> = Vec::new();
    for day in 1..=6 {
        for w in worlds.iter() {
            dir.push(format!("World Backup {} {:02}-01-2024 12_00_00.tar.gz", w, day));
        }
        let mut removed: Vec<String> = Vec::new();
        for w in worlds.iter() {
            removed.extend(files_to_remove(&dir, w, cap));
        }
        dir = without(&dir, &removed);
        for w in worlds.iter() {
            assert!(matching_archives(&dir, w).len() <= cap);
        }
    }
    assert_eq!(
        matching_archives(&dir, "Alpha"),
        names(&[
            "World Backup Alpha 05-01-2024 12_00_00.tar.gz",
            "World Backup Alpha 06-01-2024 12_00_00.tar.gz",
        ])
    );
}
