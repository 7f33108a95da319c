use s3_explorer::listing::{list_objects, ListPage, Listing, ObjectRecord, S3Object};

fn record(key: &str, size: i64) -> ObjectRecord {
    ObjectRecord {
        key: Some(key.to_string()),
        last_modified: Some("2024/01/01 00:00:00".to_string()),
        storage_class: Some("STANDARD".to_string()),
        size,
    }
}

fn page(keys: Vec<(&str, i64)>, prefixes: Vec<&str>) -> ListPage {
    ListPage {
        contents: keys.into_iter().map(|(k, s)| record(k, s)).collect(),
        common_prefixes: prefixes.into_iter().map(|p| Some(p.to_string())).collect(),
    }
}

fn names(entries: &Vec<S3Object>) -> Vec<(String, bool)> {
    entries.iter().map(|e| (e.key.clone(), e.is_folder)).collect()
}

fn name(s: &str, folder: bool) -> (String, bool) {
    (s.to_string(), folder)
}

#[test]
fn root_listing_collapses_keys_below_a_folder() {
    let pages = vec![page(vec![("photos/", 0), ("photos/a.jpg", 10), ("readme.txt", 3)], vec![])];
    let entries = list_objects(&Some(String::new()), &pages);
    assert_eq!(names(&entries), vec![name("photos", true), name("readme.txt", false)]);
}

#[test]
fn listing_without_a_prefix_is_the_listing_of_the_empty_prefix() {
    let pages = vec![page(vec![("photos/", 0), ("photos/a.jpg", 10), ("readme.txt", 3)], vec![])];
    let entries = list_objects(&None, &pages);
    assert_eq!(names(&entries), vec![name("photos", true), name("readme.txt", false)]);
}

#[test]
fn prefix_is_stripped_and_its_own_marker_is_hidden() {
    let pages = vec![page(vec![("photos/", 0), ("photos/a.jpg", 10), ("photos/2024/b.jpg", 7)], vec![])];
    let entries = list_objects(&Some("photos/".to_string()), &pages);
    assert_eq!(names(&entries), vec![name("a.jpg", false), name("2024", true)]);
}

#[test]
fn prefix_without_delimiter_is_completed() {
    let pages = vec![page(vec![("photos/a.jpg", 10)], vec!["photos/2024/"])];
    let entries = list_objects(&Some("photos".to_string()), &pages);
    assert_eq!(names(&entries), vec![name("a.jpg", false), name("2024", true)]);
}

#[test]
fn only_the_leading_prefix_is_stripped() {
    let pages = vec![page(vec![("a/a/b.txt", 1)], vec![])];
    let entries = list_objects(&Some("a/".to_string()), &pages);
    assert_eq!(names(&entries), vec![name("a", true)]);
}

#[test]
fn file_entry_keeps_what_the_store_said() {
    let pages = vec![page(vec![("readme.txt", 3)], vec![])];
    let entries = list_objects(&None, &pages);
    assert_eq!(entries.len(), 1);
    assert_eq!(entries[0].key, "readme.txt");
    assert_eq!(entries[0].last_modified, Some("2024/01/01 00:00:00".to_string()));
    assert_eq!(entries[0].size, Some(3));
    assert_eq!(entries[0].storage_class, Some("STANDARD".to_string()));
    assert!(!entries[0].is_folder);
}

#[test]
fn common_prefix_gives_a_folder_without_details() {
    let pages = vec![page(vec![], vec!["photos/"])];
    let entries = list_objects(&None, &pages);
    assert_eq!(entries.len(), 1);
    assert_eq!(entries[0].key, "photos");
    assert_eq!(entries[0].last_modified, None);
    assert_eq!(entries[0].size, None);
    assert_eq!(entries[0].storage_class, None);
    assert!(entries[0].is_folder);
}

#[test]
fn marker_and_common_prefix_make_one_folder_and_the_first_counts() {
    let pages = vec![page(vec![("docs/", 0)], vec!["docs/"])];
    let entries = list_objects(&None, &pages);
    assert_eq!(names(&entries), vec![name("docs", true)]);
    assert_eq!(entries[0].size, Some(0));
}

#[test]
fn marker_with_children_is_one_folder() {
    let pages = vec![page(vec![("docs/x/y.txt", 5), ("docs/", 0), ("docs/z.txt", 2)], vec![])];
    let entries = list_objects(&None, &pages);
    assert_eq!(names(&entries), vec![name("docs", true)]);
    assert_eq!(entries[0].size, Some(5));
}

#[test]
fn sized_key_that_ends_in_the_delimiter_is_a_folder_too() {
    let pages = vec![page(vec![("docs/", 12)], vec![])];
    let entries = list_objects(&None, &pages);
    assert_eq!(names(&entries), vec![name("docs", true)]);
}

#[test]
fn folders_are_not_repeated_across_pages() {
    let pages = vec![
        page(vec![("a/1", 1), ("b.txt", 1)], vec!["c/"]),
        page(vec![("a/2", 1), ("d.txt", 1)], vec!["c/", "a/"]),
    ];
    let entries = list_objects(&None, &pages);
    assert_eq!(
        names(&entries),
        vec![name("a", true), name("b.txt", false), name("c", true), name("d.txt", false)]
    );
}

#[test]
fn record_without_key_date_or_class_is_passed_over() {
    let mut no_key = record("a.txt", 1);
    no_key.key = None;
    let mut no_date = record("b.txt", 1);
    no_date.last_modified = None;
    let mut no_class = record("c.txt", 1);
    no_class.storage_class = None;
    let pages = vec![ListPage {
        contents: vec![no_key, no_date, no_class, record("d.txt", 1)],
        common_prefixes: vec![None],
    }];
    let entries = list_objects(&None, &pages);
    assert_eq!(names(&entries), vec![name("d.txt", false)]);
}

#[test]
fn no_name_holds_the_delimiter() {
    let pages = vec![page(
        vec![("p/a/b/c", 1), ("p/x", 1), ("p//y", 1), ("q/r/s", 1), ("p/", 0)],
        vec!["p/k/", "p/a/", "other/deep/"],
    )];
    let entries = list_objects(&Some("p".to_string()), &pages);
    assert!(!entries.is_empty());
    for e in entries.iter() {
        assert!(!e.key.contains('/'));
    }
}

#[test]
fn listing_twice_gives_the_same_entries() {
    let pages = vec![page(vec![("a/1", 1), ("b.txt", 1)], vec!["c/"]), page(vec![("a/2", 1)], vec![])];
    let first = list_objects(&Some(String::new()), &pages);
    let second = list_objects(&Some(String::new()), &pages);
    assert_eq!(names(&first), names(&second));
    let folders: Vec<&String> = first.iter().filter(|e| e.is_folder).map(|e| &e.key).collect();
    for (i, a) in folders.iter().enumerate() {
        for b in folders.iter().skip(i + 1) {
            assert_ne!(a, b);
        }
    }
}

#[test]
fn listing_page_by_page_is_the_listing_of_all_pages() {
    let pages = vec![page(vec![("a/1", 1), ("b.txt", 1)], vec!["c/"]), page(vec![("a/2", 1), ("e", 4)], vec!["f/"])];
    let prefix = None;
    let mut listing = Listing::new(&prefix);
    for p in pages.iter() {
        listing = listing.absorb_page(p);
    }
    let stepwise = listing.into_entries();
    let whole = list_objects(&prefix, &pages);
    assert_eq!(names(&stepwise), names(&whole));
    assert_eq!(stepwise.len(), 5);
}

#[test]
fn empty_listing_has_no_entries() {
    let entries = list_objects(&Some("x/".to_string()), &vec![]);
    assert!(entries.is_empty());
}

#[test]
fn taking_the_pages_in_again_brings_no_new_entry() {
    let pages = vec![page(vec![("a/1", 1), ("b.txt", 1), ("d/", 0)], vec!["c/"]), page(vec![("a/2", 1)], vec!["d/"])];
    let prefix = Some(String::new());
    let once = list_objects(&prefix, &pages);
    let mut listing = Listing::new(&prefix);
    for p in pages.iter().chain(pages.iter()) {
        listing = listing.absorb_page(p);
    }
    let twice = listing.into_entries();
    for e in names(&twice) {
        assert!(names(&once).contains(&e));
    }
    for e in names(&once) {
        assert!(names(&twice).contains(&e));
    }
}
