use s3_explorer::namer::{is_taken, new_name, unused_name};
use s3_explorer::download::LocalDownloadState;
use s3_explorer::transfer::{
    delete_objects, file_name_of, folder_name_of, get_folder_object, get_object, get_objects,
    put_object, ExpandedTarget, S3OperationObject,
};

fn strings(v: Vec<&str>) -> Vec<String> {
    v.into_iter().map(|s| s.to_string()).collect()
}

fn object(prefix: &str) -> S3OperationObject {
    S3OperationObject { prefix: prefix.to_string(), is_folder: false }
}

fn folder(prefix: &str) -> S3OperationObject {
    S3OperationObject { prefix: prefix.to_string(), is_folder: true }
}

#[test]
fn new_name_marks_the_stem() {
    assert_eq!(new_name("a.txt"), "a_copy.txt");
    assert_eq!(new_name("report"), "report_copy");
    assert_eq!(new_name("a.tar.gz"), "a.tar_copy.gz");
    assert_eq!(new_name("x.gz.gz"), "x.gz_copy.gz");
    assert_eq!(new_name(".bashrc"), ".bashrc_copy");
    assert_eq!(new_name("a."), "a_copy.");
    assert_eq!(new_name(""), "_copy");
    assert_eq!(new_name("a_copy.txt"), "a_copy_copy.txt");
}

#[test]
fn unused_name_keeps_a_free_name() {
    assert_eq!(unused_name("a.txt", &strings(vec![])), "a.txt");
    assert_eq!(unused_name("a.txt", &strings(vec!["b.txt", "a_copy.txt"])), "a.txt");
}

#[test]
fn unused_name_follows_the_chain_to_its_end() {
    let taken = strings(vec!["a_copy.txt", "a.txt", "a_copy_copy.txt", "z"]);
    let name = unused_name("a.txt", &taken);
    assert_eq!(name, "a_copy_copy_copy.txt");
    assert!(!is_taken(&taken, &name));
}

#[test]
fn unused_name_is_never_taken() {
    let mut taken: Vec<String> = Vec::new();
    for _ in 0..20 {
        let name = unused_name("dir", &taken);
        assert!(!taken.contains(&name));
        taken.push(name);
    }
    assert_eq!(taken[0], "dir");
    assert_eq!(taken[3], "dir_copy_copy_copy");
}

#[test]
fn file_name_is_the_last_segment() {
    assert_eq!(file_name_of("a/b/c.txt"), "c.txt");
    assert_eq!(file_name_of("c.txt"), "c.txt");
    assert_eq!(file_name_of("a/b/"), "");
    assert_eq!(file_name_of(""), "");
}

#[test]
fn get_object_names_the_file_after_the_key() {
    assert_eq!(get_object(&object("a/b/c.txt"), &strings(vec![])), "c.txt");
    assert_eq!(get_object(&object("a/b/c.txt"), &strings(vec!["c.txt"])), "c_copy.txt");
}

#[test]
fn folder_name_is_the_last_segment_that_is_not_empty() {
    assert_eq!(folder_name_of("a/b/"), "b");
    assert_eq!(folder_name_of("a/b"), "b");
    assert_eq!(folder_name_of("photos/"), "photos");
    assert_eq!(folder_name_of("photos"), "photos");
    assert_eq!(folder_name_of("a//"), "a");
    assert_eq!(folder_name_of("/"), "");
    assert_eq!(folder_name_of(""), "");
}

#[test]
fn folder_download_rebuilds_the_directories() {
    let keys = strings(vec!["a/", "a/b/c.txt", "a/d.txt"]);
    let plan = get_folder_object(&folder("a/"), &keys, &strings(vec![]), false);
    assert_eq!(plan.directory, "a");
    assert_eq!(plan.archive, None);
    assert_eq!(plan.token, "a/");
    assert_eq!(plan.files.len(), 2);
    assert_eq!(plan.files[0].key, "a/b/c.txt");
    assert_eq!(plan.files[0].directories, strings(vec!["b"]));
    assert_eq!(plan.files[0].file_name, "c.txt");
    assert_eq!(plan.files[1].key, "a/d.txt");
    assert_eq!(plan.files[1].directories, strings(vec![]));
    assert_eq!(plan.files[1].file_name, "d.txt");
}

#[test]
fn folder_path_spells_out_the_relative_key() {
    let keys = strings(vec!["root/x/y/z/file.bin", "root/x/top", "root/x//odd"]);
    let plan = get_folder_object(&folder("root/x/"), &keys, &strings(vec![]), false);
    let relative = vec!["y/z/file.bin", "top", "/odd"];
    for (file, rel) in plan.files.iter().zip(relative.iter()) {
        let mut parts = file.directories.clone();
        parts.push(file.file_name.clone());
        assert_eq!(parts.join("/"), *rel);
    }
}

#[test]
fn folder_download_takes_a_free_directory() {
    let keys = strings(vec!["a/d.txt"]);
    let taken = strings(vec!["a", "a_copy", "a.zip"]);
    let plan = get_folder_object(&folder("a/"), &keys, &taken, true);
    assert_eq!(plan.directory, "a_copy_copy");
    assert_eq!(plan.archive, Some("a_copy_copy.zip".to_string()));
    assert_eq!(plan.token, "a/");
}

#[test]
fn folder_download_of_a_deep_prefix() {
    let keys = strings(vec!["x/y/", "x/y/z.txt", "x/y/w/"]);
    let plan = get_folder_object(&folder("x/y"), &keys, &strings(vec![]), true);
    assert_eq!(plan.directory, "y");
    assert_eq!(plan.archive, Some("y.zip".to_string()));
    assert_eq!(plan.files.len(), 1);
    assert_eq!(plan.files[0].directories, strings(vec![""]));
    assert_eq!(plan.files[0].file_name, "z.txt");
}

#[test]
fn upload_key_is_the_file_name_below_the_prefix() {
    assert_eq!(put_object(&Some("docs".to_string()), "/home/me/report.pdf"), "docs/report.pdf");
    assert_eq!(put_object(&Some("docs/2024".to_string()), "report.pdf"), "docs/2024/report.pdf");
    assert_eq!(put_object(&Some(String::new()), "/home/me/report.pdf"), "report.pdf");
    assert_eq!(put_object(&None, "/home/me/report.pdf"), "report.pdf");
}

#[test]
fn deletion_expands_folders_and_keeps_objects() {
    let targets = vec![
        ExpandedTarget { target: object("readme.txt"), listed: None },
        ExpandedTarget { target: folder("x/"), listed: Some(strings(vec!["x/", "x/a", "x/b/c"])) },
    ];
    let plan = delete_objects(&targets);
    assert_eq!(plan.keys, strings(vec!["readme.txt", "x/", "x/a", "x/b/c"]));
    assert!(plan.failed.is_empty());
}

#[test]
fn deletion_names_no_key_twice() {
    let targets = vec![
        ExpandedTarget { target: object("x/a"), listed: None },
        ExpandedTarget { target: folder("x/"), listed: Some(strings(vec!["x/a", "x/b", "x/a"])) },
        ExpandedTarget { target: folder("x/b"), listed: Some(strings(vec!["x/b"])) },
        ExpandedTarget { target: object("x/a"), listed: Some(strings(vec!["ignored"])) },
    ];
    let plan = delete_objects(&targets);
    assert_eq!(plan.keys, strings(vec!["x/a", "x/b"]));
}

#[test]
fn folder_that_could_not_be_listed_is_reported() {
    let targets = vec![
        ExpandedTarget { target: folder("gone/"), listed: None },
        ExpandedTarget { target: object("k"), listed: None },
        ExpandedTarget { target: folder("empty/"), listed: Some(vec![]) },
    ];
    let plan = delete_objects(&targets);
    assert_eq!(plan.keys, strings(vec!["k"]));
    assert_eq!(plan.failed, strings(vec!["gone/"]));
}

#[test]
fn batch_goes_on_after_a_failure() {
    let outcomes = vec![Ok("/downloads/a.txt".to_string()), Err("NoSuchKey".to_string())];
    let report = get_objects(&outcomes);
    assert_eq!(report.paths, strings(vec!["/downloads/a.txt"]));
    assert_eq!(report.failures.len(), 1);
    assert_eq!(report.failures[0].index, 1);
    assert_eq!(report.failures[0].message, "NoSuchKey");
}

#[test]
fn batch_keeps_the_order_of_its_targets() {
    let outcomes = vec![
        Err("first".to_string()),
        Ok("a.txt".to_string()),
        Ok("b.txt".to_string()),
        Err("second".to_string()),
        Ok("c.txt".to_string()),
    ];
    let report = get_objects(&outcomes);
    assert_eq!(report.paths, strings(vec!["a.txt", "b.txt", "c.txt"]));
    let failed: Vec<(usize, String)> = report.failures.iter().map(|f| (f.index, f.message.clone())).collect();
    assert_eq!(failed, vec![(0, "first".to_string()), (3, "second".to_string())]);
    assert!(get_objects(&vec![]).paths.is_empty());
}

#[test]
fn each_directory_is_created_once() {
    let state = LocalDownloadState::new("photos".to_string());
    assert_eq!(state.root_name(), "photos");
    assert_eq!(state.created_count(), 0);
    let (state, fresh) = state.enter(&strings(vec!["2024", "05"]));
    assert_eq!(fresh, vec![strings(vec!["2024"]), strings(vec!["2024", "05"])]);
    let (state, fresh) = state.enter(&strings(vec![]));
    assert!(fresh.is_empty());
    let (state, fresh) = state.enter(&strings(vec!["2024", "06", "raw"]));
    assert_eq!(fresh, vec![strings(vec!["2024", "06"]), strings(vec!["2024", "06", "raw"])]);
    let (state, fresh) = state.enter(&strings(vec!["2024", "05"]));
    assert!(fresh.is_empty());
    let (state, fresh) = state.enter(&strings(vec!["05"]));
    assert_eq!(fresh, vec![strings(vec!["05"])]);
    assert_eq!(state.created_count(), 5);
    assert_eq!(state.root_name(), "photos");
}
