use s3_explorer::archive::{archive_entry_name, archive_time, entry_time, Calendar, EntryTime};

fn at(year: u16, month: u8, day: u8, hour: u8, minute: u8, second: u8) -> Option<EntryTime> {
    Some(EntryTime { year, month, day, hour, minute, second })
}

#[test]
fn seconds_become_a_date_and_a_time_of_day() {
    assert_eq!(archive_time(1_546_300_800), at(2019, 1, 1, 0, 0, 0));
    assert_eq!(archive_time(1_709_215_445), at(2024, 2, 29, 14, 4, 5));
    assert_eq!(archive_time(951_782_399), at(2000, 2, 28, 23, 59, 59));
}

#[test]
fn archive_years_run_from_1980_to_2107() {
    assert_eq!(archive_time(315_532_800), at(1980, 1, 1, 0, 0, 0));
    assert_eq!(archive_time(315_532_799), None);
    assert_eq!(archive_time(4_354_819_199), at(2107, 12, 31, 23, 59, 59));
    assert_eq!(archive_time(4_354_819_200), None);
    assert_eq!(archive_time(0), None);
    assert_eq!(archive_time(-1), None);
}

#[test]
fn seconds_beyond_the_calendar_have_no_time() {
    assert_eq!(archive_time(i64::MAX), None);
    assert_eq!(archive_time(i64::MIN), None);
}

#[test]
fn entry_time_copies_the_fields() {
    let c = Calendar { year: 1999, month: 12, day: 31, hour: 23, minute: 58, second: 57 };
    assert_eq!(entry_time(c), at(1999, 12, 31, 23, 58, 57));
    assert_eq!(entry_time(Calendar { year: 1979, ..c }), None);
    assert_eq!(entry_time(Calendar { year: 2108, ..c }), None);
    assert_eq!(entry_time(Calendar { year: -5, ..c }), None);
}

#[test]
fn archive_names_start_with_the_archived_directory() {
    assert_eq!(archive_entry_name("/home/me/Downloads/photos", "/home/me/Downloads"), "photos");
    assert_eq!(archive_entry_name("/home/me/Downloads/photos/a.jpg", "/home/me/Downloads"), "photos/a.jpg");
    assert_eq!(archive_entry_name("/home/me/Downloads/photos/2024/b.jpg", "/home/me/Downloads"), "photos/2024/b.jpg");
    assert_eq!(archive_entry_name("/photos/a.jpg", "/"), "photos/a.jpg");
}
