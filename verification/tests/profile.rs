use s3_explorer::profile::{
    list_profile_name, read, read_profiles, shape_aws_toml, shape_setting,
    AWSConfigManager, Config, Configs, Credential, Credentials, CONFIG_FILE_NAME,
    CREDENTIAL_FILE_NAME,
};
use s3_explorer::strmap::StrMap;

fn value(m: &StrMap<String>, key: &str) -> Option<String> {
    m.get(key).cloned()
}

fn keys<V>(m: &StrMap<V>) -> Vec<String> {
    (0..m.len()).map(|i| m.key_at(i).clone()).collect()
}

#[test]
fn config_and_credentials_make_one_profile() {
    let config = "[default]\nregion=us-east-1\noutput=json";
    let credentials = "[default]\naws_access_key_id=AKIA...\naws_secret_access_key=abc=def";
    let profiles = read_profiles(Some(config), Some(credentials));
    assert_eq!(profiles.len(), 1);
    let p = profiles.get("default").unwrap();
    assert_eq!(p.name, "default");
    assert_eq!(p.region, "us-east-1");
    assert_eq!(p.output, "json");
    assert_eq!(p.access_key_id, Some("AKIA...".to_string()));
    assert_eq!(p.secret_access_key, Some("abc=def".to_string()));
    assert_eq!(p.session_token, None);
}

#[test]
fn value_keeps_every_equals_sign() {
    let sections = shape_aws_toml("[p]\naws_session_token=abc=def==\n");
    assert_eq!(value(sections.get("p").unwrap(), "aws_session_token"), Some("abc=def==".to_string()));
    let (k, v) = shape_setting(&"token=abc=def==".chars().collect());
    assert_eq!(k, "token");
    assert_eq!(v, "abc=def==");
    let (k, v) = shape_setting(&"k==".chars().collect());
    assert_eq!(k, "k");
    assert_eq!(v, "=");
}

#[test]
fn keys_and_parts_of_values_are_trimmed() {
    let sections = shape_aws_toml("[p]\n  region =  eu-west-1  \r\noutput = a = b \n");
    let p = sections.get("p").unwrap();
    assert_eq!(value(p, "region"), Some("eu-west-1".to_string()));
    assert_eq!(value(p, "output"), Some("a=b".to_string()));
    assert_eq!(p.len(), 2);
}

#[test]
fn header_is_what_stands_between_the_outer_brackets() {
    let sections = shape_aws_toml("[default]\na=1\n  [profile dev] # note\nb=2\nx[a]y]z\nc=3\n[]\nd=4\n");
    assert_eq!(keys(&sections), vec!["default", "profile dev", "a]y", ""]);
    assert_eq!(value(sections.get("default").unwrap(), "a"), Some("1".to_string()));
    assert_eq!(value(sections.get("profile dev").unwrap(), "b"), Some("2".to_string()));
    assert_eq!(value(sections.get("a]y").unwrap(), "c"), Some("3".to_string()));
    assert_eq!(value(sections.get("").unwrap(), "d"), Some("4".to_string()));
}

#[test]
fn brackets_in_the_wrong_order_open_nothing() {
    let sections = shape_aws_toml("[s]\n]k[=v\nk2=]v[\n[unclosed\nk3=v3\n");
    assert_eq!(keys(&sections), vec!["s"]);
    let s = sections.get("s").unwrap();
    assert_eq!(value(s, "]k["), Some("v".to_string()));
    assert_eq!(value(s, "k2"), Some("]v[".to_string()));
    assert_eq!(value(s, "k3"), Some("v3".to_string()));
}

#[test]
fn line_with_brackets_is_a_header_even_with_a_setting() {
    let sections = shape_aws_toml("[a]\nk=[b]\nj=1\n");
    assert_eq!(keys(&sections), vec!["a", "b"]);
    assert_eq!(sections.get("a").unwrap().len(), 0);
    assert_eq!(value(sections.get("b").unwrap(), "j"), Some("1".to_string()));
}

#[test]
fn malformed_lines_are_passed_over() {
    let sections = shape_aws_toml("orphan=1\n\n   \n[s]\nno equals sign here\nk=v\n\t\n");
    assert_eq!(keys(&sections), vec!["s"]);
    let s = sections.get("s").unwrap();
    assert_eq!(s.len(), 1);
    assert_eq!(value(s, "k"), Some("v".to_string()));
    assert_eq!(value(s, "orphan"), None);
}

#[test]
fn empty_text_has_no_sections() {
    assert_eq!(shape_aws_toml("").len(), 0);
    assert_eq!(shape_aws_toml("\n\n").len(), 0);
    assert_eq!(shape_aws_toml("a=b\nc=d").len(), 0);
}

#[test]
fn joiner_separates_settings_on_one_line() {
    let sections = shape_aws_toml("[s]\na=1;b=2=3; c = 4 ;d\n");
    let s = sections.get("s").unwrap();
    assert_eq!(value(s, "a"), Some("1".to_string()));
    assert_eq!(value(s, "b"), Some("2=3".to_string()));
    assert_eq!(value(s, "c"), Some("4".to_string()));
    assert_eq!(value(s, "d"), Some(String::new()));
    assert_eq!(keys(s), vec!["a", "b", "c", "d"]);
}

#[test]
fn later_setting_replaces_an_earlier_one() {
    let sections = shape_aws_toml("[s]\nk=1\nj=x\nk=2\n");
    let s = sections.get("s").unwrap();
    assert_eq!(value(s, "k"), Some("2".to_string()));
    assert_eq!(keys(s), vec!["k", "j"]);
}

#[test]
fn section_that_is_opened_again_goes_on() {
    let sections = shape_aws_toml("[a]\nx=1\n[b]\ny=2\n[a]\nz=3\nx=9\n");
    assert_eq!(keys(&sections), vec!["a", "b"]);
    let a = sections.get("a").unwrap();
    assert_eq!(value(a, "x"), Some("9".to_string()));
    assert_eq!(value(a, "z"), Some("3".to_string()));
    assert_eq!(value(sections.get("b").unwrap(), "y"), Some("2".to_string()));
}

#[test]
fn profile_prefix_is_taken_off_section_names() {
    let configs: Configs = read::<Configs, Config>("[default]\nregion=r0\noutput=o0\n[profile dev]\nregion=r1\noutput=o1\n[my profile x]\nregion=r2\n");
    assert_eq!(keys(&configs.items), vec!["default", "dev", "my profile x"]);
    assert_eq!(configs.items.get("dev").unwrap().region, "r1");
    assert_eq!(configs.items.get("dev").unwrap().output, "o1");
    assert_eq!(configs.items.get("my profile x").unwrap().region, "r2");
    assert_eq!(configs.items.get("my profile x").unwrap().output, "");
}

#[test]
fn later_section_of_a_profile_counts() {
    let configs: Configs = read::<Configs, Config>("[dev]\nregion=first\noutput=json\n[other]\nregion=o\n[profile dev]\nregion=second\n");
    assert_eq!(keys(&configs.items), vec!["dev", "other"]);
    assert_eq!(configs.items.get("dev").unwrap().region, "second");
    assert_eq!(configs.items.get("dev").unwrap().output, "");
}

#[test]
fn credentials_are_read_by_their_keys() {
    let credentials: Credentials = read::<Credentials, Credential>("[a]\naws_access_key_id=id\naws_secret_access_key=secret\naws_session_token=tok==\n[b]\naws_access_key_id=id2\n");
    let a = credentials.items.get("a").unwrap();
    assert_eq!(a.access_key_id, Some("id".to_string()));
    assert_eq!(a.secret_access_key, Some("secret".to_string()));
    assert_eq!(a.session_token, Some("tok==".to_string()));
    let b = credentials.items.get("b").unwrap();
    assert_eq!(b.access_key_id, Some("id2".to_string()));
    assert_eq!(b.secret_access_key, None);
    assert_eq!(b.session_token, None);
}

#[test]
fn builders_take_sections_as_they_are() {
    let configs = <Configs as AWSConfigManager<Config>>::new(shape_aws_toml("[profile p]\noutput=text\n"));
    assert_eq!(configs.items.get("p").unwrap().output, "text");
    assert_eq!(configs.items.get("p").unwrap().region, "");
    let credentials = <Credentials as AWSConfigManager<Credential>>::new(shape_aws_toml("[p]\n"));
    assert_eq!(credentials.items.len(), 1);
    assert_eq!(credentials.items.get("p").unwrap().access_key_id, None);
}

#[test]
fn setting_is_copied_out_of_a_section() {
    let sections = shape_aws_toml("[s]\nregion=r\n");
    let s = sections.get("s").unwrap();
    assert_eq!(Credentials::get_value_from_map(s, "region"), Some("r".to_string()));
    assert_eq!(Credentials::get_value_from_map(s, "output"), None);
}

#[test]
fn profile_of_one_file_alone_is_kept() {
    let config = "[profile only-config]\nregion=eu-central-1\noutput=text\n[both]\nregion=r\n";
    let credentials = "[only-credentials]\naws_access_key_id=K\naws_secret_access_key=S\n[both]\naws_session_token=T\n";
    let profiles = read_profiles(Some(config), Some(credentials));
    assert_eq!(keys(&profiles), vec!["only-config", "both", "only-credentials"]);
    let a = profiles.get("only-config").unwrap();
    assert_eq!(a.name, "only-config");
    assert_eq!(a.region, "eu-central-1");
    assert_eq!(a.output, "text");
    assert_eq!(a.access_key_id, None);
    assert_eq!(a.secret_access_key, None);
    assert_eq!(a.session_token, None);
    let b = profiles.get("only-credentials").unwrap();
    assert_eq!(b.name, "only-credentials");
    assert_eq!(b.region, "");
    assert_eq!(b.output, "");
    assert_eq!(b.access_key_id, Some("K".to_string()));
    assert_eq!(b.secret_access_key, Some("S".to_string()));
    let c = profiles.get("both").unwrap();
    assert_eq!(c.region, "r");
    assert_eq!(c.output, "");
    assert_eq!(c.session_token, Some("T".to_string()));
}

#[test]
fn unreadable_files_give_no_profiles() {
    assert_eq!(read_profiles(None, None).len(), 0);
    let only = read_profiles(None, Some("[a]\naws_access_key_id=K\n"));
    assert_eq!(keys(&only), vec!["a"]);
    assert_eq!(only.get("a").unwrap().region, "");
    let only = read_profiles(Some("[a]\nregion=r\n"), None);
    assert_eq!(only.get("a").unwrap().region, "r");
    assert_eq!(only.get("a").unwrap().access_key_id, None);
}

#[test]
fn profile_names_are_listed_in_order() {
    let profiles = read_profiles(Some("[zeta]\nregion=r\n[profile alpha]\nregion=r\n[Beta]\nregion=r\n[alp]\nregion=r\n"), Some("[mid]\naws_access_key_id=K\n"));
    assert_eq!(list_profile_name(&profiles), vec!["Beta", "alp", "alpha", "mid", "zeta"]);
    assert!(list_profile_name(&read_profiles(None, None)).is_empty());
}

#[test]
fn file_names_of_the_store() {
    assert_eq!(CONFIG_FILE_NAME, "config");
    assert_eq!(CREDENTIAL_FILE_NAME, "credentials");
}
