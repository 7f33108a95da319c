use s3_explorer::config::{
    default_dir_zip, get_selected_profile, list_favorite, save_config, set_profile, Favorite,
    Favorites, UserConfig,
};

fn fav(bucket: &str, prefix: &str) -> Favorite {
    Favorite::new(bucket.to_string(), prefix.to_string())
}

fn places(list: &Vec<Favorite>) -> Vec<(String, String)> {
    list.iter().map(|f| (f.bucket().clone(), f.prefix().clone())).collect()
}

fn place(bucket: &str, prefix: &str) -> (String, String) {
    (bucket.to_string(), prefix.to_string())
}

fn config(profile: Option<&str>) -> UserConfig {
    let mut c = UserConfig::with_download_dir(Some("/home/me/Downloads".to_string()));
    c.profile = profile.map(|p| p.to_string());
    c
}

#[test]
fn fresh_configuration() {
    let c = UserConfig::with_download_dir(Some("/d".to_string()));
    assert_eq!(c.profile, None);
    assert!(c.favorites.is_none());
    assert_eq!(c.download_dir, Some("/d".to_string()));
    assert!(!c.dir_zip);
    assert!(!default_dir_zip());
}

#[test]
fn favorites_start_empty() {
    let f = Favorites::new();
    assert_eq!(f.items.len(), 0);
}

#[test]
fn favorite_is_added_once() {
    let mut f = Favorites::new();
    f.add_favorite("dev".to_string(), fav("b", "p/"));
    f.add_favorite("dev".to_string(), fav("b", "q/"));
    f.add_favorite("dev".to_string(), fav("b", "p/"));
    f.add_favorite("prod".to_string(), fav("b", "p/"));
    assert_eq!(f.items.len(), 2);
    assert_eq!(places(f.items.get("dev").unwrap()), vec![place("b", "p/"), place("b", "q/")]);
    assert_eq!(places(f.items.get("prod").unwrap()), vec![place("b", "p/")]);
}

#[test]
fn favorite_is_removed_where_it_is() {
    let mut f = Favorites::new();
    f.add_favorite("dev".to_string(), fav("b", "p/"));
    f.add_favorite("dev".to_string(), fav("b", "q/"));
    f.add_favorite("dev".to_string(), fav("c", "p/"));
    f.remove_favorite("dev".to_string(), fav("b", "q/"));
    assert_eq!(places(f.items.get("dev").unwrap()), vec![place("b", "p/"), place("c", "p/")]);
    f.remove_favorite("dev".to_string(), fav("b", "missing"));
    f.remove_favorite("nobody".to_string(), fav("b", "p/"));
    assert_eq!(places(f.items.get("dev").unwrap()), vec![place("b", "p/"), place("c", "p/")]);
    assert!(f.items.get("nobody").is_none());
    f.remove_favorite("dev".to_string(), fav("b", "p/"));
    f.remove_favorite("dev".to_string(), fav("c", "p/"));
    assert_eq!(f.items.get("dev").map(|l| l.len()), Some(0));
}

#[test]
fn update_needs_a_selected_profile() {
    let mut c = config(None);
    c.update_favorite(fav("b", "p/"), true);
    assert!(c.favorites.is_none());
    assert!(list_favorite(&c).is_empty());
}

#[test]
fn update_adds_and_removes_for_the_selected_profile() {
    let mut c = config(Some("dev"));
    c.update_favorite(fav("b", "p/"), false);
    assert!(c.favorites.is_none());
    c.update_favorite(fav("b", "p/"), true);
    c.update_favorite(fav("b2", ""), true);
    c.update_favorite(fav("b", "p/"), true);
    assert_eq!(places(&list_favorite(&c)), vec![place("b", "p/"), place("b2", "")]);
    c.update_favorite(fav("b", "p/"), false);
    assert_eq!(places(&list_favorite(&c)), vec![place("b2", "")]);
    assert_eq!(c.profile, Some("dev".to_string()));
    assert_eq!(c.download_dir, Some("/home/me/Downloads".to_string()));
}

#[test]
fn favorites_are_listed_for_the_selected_profile_only() {
    let mut c = config(Some("dev"));
    c.update_favorite(fav("b", "p/"), true);
    let c = set_profile(c, "prod".to_string());
    assert!(list_favorite(&c).is_empty());
    let c = set_profile(c, "dev".to_string());
    assert_eq!(places(&list_favorite(&c)), vec![place("b", "p/")]);
}

#[test]
fn saving_changes_directory_and_archiving_only() {
    let mut c = config(Some("dev"));
    c.update_favorite(fav("b", "p/"), true);
    let c = save_config(c, "/tmp/out".to_string(), true);
    assert_eq!(c.download_dir, Some("/tmp/out".to_string()));
    assert!(c.dir_zip);
    assert_eq!(c.profile, Some("dev".to_string()));
    assert_eq!(places(&list_favorite(&c)), vec![place("b", "p/")]);
}

#[test]
fn selected_profile_is_what_was_set() {
    let c = config(None);
    assert_eq!(get_selected_profile(&c), None);
    let c = set_profile(c, "dev".to_string());
    assert_eq!(get_selected_profile(&c), Some("dev".to_string()));
    assert_eq!(c.download_dir, Some("/home/me/Downloads".to_string()));
    assert!(!c.dir_zip);
}

#[test]
fn copy_of_a_favorite_names_the_same_place() {
    let f = fav("bucket", "a/b/");
    let g = f.copy();
    assert!(f.same_place(&g));
    assert!(!f.same_place(&fav("bucket", "a/b")));
    assert!(!f.same_place(&fav("bucket2", "a/b/")));
    assert_eq!(g.bucket(), "bucket");
    assert_eq!(g.prefix(), "a/b/");
}
