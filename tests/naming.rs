use world_backup::naming::archive_file_name;
use world_backup::naming::decimal_text;
use world_backup::naming::is_archive_of_world;
use world_backup::naming::two_digit_text;
use world_backup::naming::year_digits;
use world_backup::naming::Timestamp;

fn at(year: i32, month: u32, day: u32, hour: u32, minute: u32, second: u32) -> Timestamp {
    Timestamp { year, month, day, hour, minute, second }
}

#[test]
fn archive_name_pads_every_field() {
    let name = archive_file_name("Alpha", &at(2024, 3, 5, 7, 8, 9));
    assert_eq!(name, "World Backup Alpha 05-03-2024 07_08_09.tar.gz");
}

#[test]
fn archive_name_two_digit_fields_unchanged() {
    let name = archive_file_name("My World", &at(1999, 12, 31, 23, 59, 58));
    assert_eq!(name, "World Backup My World 31-12-1999 23_59_58.tar.gz");
}

#[test]
fn timestamp_format_matches_name_part() {
    assert_eq!(at(2024, 1, 15, 0, 0, 0).format(), "15-01-2024 00_00_00");
}

#[test]
fn year_is_zero_padded_to_four_digits() {
    assert_eq!(year_digits(33), "0033");
    assert_eq!(year_digits(0), "0000");
    assert_eq!(year_digits(9999), "9999");
}

#[test]
fn year_outside_four_digits_carries_a_sign() {
    assert_eq!(year_digits(12345), "+12345");
    assert_eq!(year_digits(-5), "-0005");
    assert_eq!(year_digits(-12345), "-12345");
}

#[test]
fn decimal_and_two_digit_texts() {
    assert_eq!(decimal_text(0), "0");
    assert_eq!(decimal_text(1234567), "1234567");
    assert_eq!(decimal_text(u64::MAX), "18446744073709551615");
    assert_eq!(two_digit_text(4), "04");
    assert_eq!(two_digit_text(42), "42");
}

#[test]
fn archive_belongs_to_world_by_substring() {
    let name = "World Backup Alpha2 01-01-2024 00_00_00.tar.gz";
    assert!(is_archive_of_world(name, "Alpha2"));
    assert!(is_archive_of_world(name, "Alpha"));
    assert!(!is_archive_of_world(name, "Beta"));
}

#[test]
fn only_names_with_the_archive_suffix_count() {
    assert!(!is_archive_of_world("World Backup Alpha 01-01-2024 00_00_00.tar", "Alpha"));
    assert!(!is_archive_of_world("World Backup Alpha 01-01-2024 00_00_00.zip", "Alpha"));
    assert!(is_archive_of_world("Alpha.tar.gz", "Alpha"));
}

#[test]
fn the_suffix_is_not_searched_for_the_world() {
    assert!(!is_archive_of_world("backup.tar.gz", "gz"));
    assert!(!is_archive_of_world("backup.tar.gz", "tar"));
    assert!(is_archive_of_world("backup.tar.gz", "back"));
}
