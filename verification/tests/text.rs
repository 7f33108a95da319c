use s3_explorer::files::{file_line_name, file_response, get_files_target, FileMeta};
use s3_explorer::order::{lex_le_chars, sorted_strings};
use s3_explorer::strmap::StrMap;
use s3_explorer::text::{
    chain, chars_of, find_char, has_char, has_prefix, has_suffix_char, is_space_char, join_with,
    rfind_char, same_chars, slice_of, split_on, string_of, trimmed, without_prefix,
};

fn chars(s: &str) -> Vec<char> {
    s.chars().collect()
}

fn strings(v: Vec<&str>) -> Vec<String> {
    v.into_iter().map(|s| s.to_string()).collect()
}

#[test]
fn characters_and_strings_convert_both_ways() {
    for s in ["", "a", "héllo wörld", "日本語/キー", "a=b;c"] {
        assert_eq!(chars_of(s), chars(s));
        assert_eq!(string_of(&chars(s)), s);
    }
}

#[test]
fn split_is_the_split_of_the_standard_library() {
    for s in ["", "/", "a", "a/b", "a/b/", "/a//b/", "//", "no delimiter"] {
        let expected: Vec<Vec<char>> = s.split('/').map(chars).collect();
        assert_eq!(split_on(&chars(s), '/'), expected);
    }
    assert_eq!(split_on(&chars("a/b/"), '/'), vec![chars("a"), chars("b"), chars("")]);
}

#[test]
fn join_undoes_split() {
    for s in ["", "=", "a=b", "abc=def==", "==a"] {
        assert_eq!(join_with(&split_on(&chars(s), '='), '='), chars(s));
    }
    assert_eq!(join_with(&vec![], '='), chars(""));
    assert_eq!(join_with(&vec![chars("a"), chars(""), chars("b")], '/'), chars("a//b"));
}

#[test]
fn trim_is_the_trim_of_the_standard_library() {
    for s in ["", " ", "  a  ", "\ta b\r\n", "\u{3000}x\u{a0}", "\u{2003}\u{85}y z\u{1680}", "x\u{200b}", "\u{feff}x"] {
        assert_eq!(trimmed(&chars(s)), chars(s.trim()));
    }
    for c in ['\u{0}', ' ', '\t', '\n', '\u{b}', '\u{c}', '\r', '\u{1c}', '\u{85}', '\u{a0}', '\u{1680}', '\u{180e}', '\u{2000}', '\u{200a}', '\u{200b}', '\u{2028}', '\u{2029}', '\u{202f}', '\u{205f}', '\u{3000}', 'a'] {
        assert_eq!(is_space_char(c), c.is_whitespace());
    }
}

#[test]
fn prefix_is_stripped_once_from_the_start() {
    assert!(has_prefix(&chars("photos/a"), &chars("photos/")));
    assert!(has_prefix(&chars("a"), &chars("")));
    assert!(!has_prefix(&chars("pho"), &chars("photos/")));
    assert_eq!(without_prefix(&chars("a/a/b"), &chars("a/")), chars("a/b"));
    assert_eq!(without_prefix(&chars("b/a/"), &chars("a/")), chars("b/a/"));
    assert_eq!(without_prefix(&chars("a/"), &chars("a/")), chars(""));
}

#[test]
fn searching_characters() {
    assert_eq!(find_char(&chars("a.b.c"), '.'), 1);
    assert_eq!(find_char(&chars("abc"), '.'), 3);
    assert_eq!(rfind_char(&chars("a.b.c"), '.'), Some(3));
    assert_eq!(rfind_char(&chars("abc"), '.'), None);
    assert!(has_char(&chars("k=v"), '='));
    assert!(!has_char(&chars("kv"), '='));
    assert!(has_suffix_char(&chars("a/"), '/'));
    assert!(!has_suffix_char(&chars(""), '/'));
    assert!(same_chars(&chars("ab"), &chars("ab")));
    assert!(!same_chars(&chars("ab"), &chars("ac")));
    assert!(!same_chars(&chars("ab"), &chars("abc")));
    assert_eq!(slice_of(&chars("abcdef"), 2, 4), chars("cd"));
    assert_eq!(chain(&chars("ab"), &chars("cd")), chars("abcd"));
}

#[test]
fn strings_are_ordered_as_the_standard_library_orders_them() {
    let samples = ["", "a", "ab", "b", "B", "a\u{e9}", "az", "\u{10000}", "\u{ffff}", "abc", "abd"];
    for a in samples {
        for b in samples {
            assert_eq!(lex_le_chars(&chars(a), &chars(b)), a <= b);
        }
    }
}

#[test]
fn sorting_keeps_every_string() {
    let names = strings(vec!["pear", "apple", "fig", "apple", "", "Zebra", "apples"]);
    let mut expected = names.clone();
    expected.sort();
    assert_eq!(sorted_strings(&names), expected);
    assert_eq!(sorted_strings(&vec![]), Vec::<String>::new());
}

#[test]
fn map_keeps_the_order_of_first_insertion() {
    let mut m: StrMap<u32> = StrMap::new();
    assert_eq!(m.len(), 0);
    m.insert("b".to_string(), 1);
    m.insert("a".to_string(), 2);
    m.insert("b".to_string(), 3);
    assert_eq!(m.len(), 2);
    assert_eq!(m.key_at(0), "b");
    assert_eq!(m.key_at(1), "a");
    assert_eq!(*m.value_at(0), 3);
    assert_eq!(m.get("a"), Some(&2));
    assert_eq!(m.get("c"), None);
    assert_eq!(m.find("a"), Some(1));
    assert_eq!(m.find("c"), None);
    let mut held = 10;
    m.swap_value(1, &mut held);
    assert_eq!(held, 2);
    assert_eq!(m.get("a"), Some(&10));
    assert_eq!(m.get("b"), Some(&3));
}

#[test]
fn directory_to_list() {
    assert_eq!(get_files_target("/home/me/"), "/home/me");
    assert_eq!(get_files_target("/home/me"), "/home/me");
    assert_eq!(get_files_target("/"), "/");
    assert_eq!(get_files_target(""), "");
    assert_eq!(get_files_target("a//"), "a/");
}

#[test]
fn name_of_a_directory_entry() {
    assert_eq!(file_line_name("/home/me/notes.txt", "/home/me"), "notes.txt");
    assert_eq!(file_line_name("/etc", "/"), "etc");
    assert_eq!(file_line_name("relative/x", "relative"), "x");
    assert_eq!(file_line_name("/home/me/home/me/x", "/home/me"), "home/me/x");
}

#[test]
fn entry_is_shown_with_its_name_and_its_mode_as_text() {
    let meta = FileMeta {
        path: "/home/me/notes.txt".to_string(),
        is_dir: false,
        size: 42,
        mode: 0o100644,
        user: "me".to_string(),
        group: "staff".to_string(),
        update_at: "2024/02/29 14:04".to_string(),
    };
    let shown = file_response(meta, "/home/me");
    assert!(!shown.is_dir);
    assert_eq!(shown.name, "notes.txt");
    assert_eq!(shown.file_size, 42);
    assert_eq!(shown.permission, "-rw-r--r--");
    assert_eq!(shown.user, "me");
    assert_eq!(shown.group, "staff");
    assert_eq!(shown.update_at, "2024/02/29 14:04");
}

#[test]
fn directory_mode_starts_with_d() {
    let meta = FileMeta {
        path: "/srv".to_string(),
        is_dir: true,
        size: 4096,
        mode: 0o040755,
        user: "root".to_string(),
        group: "root".to_string(),
        update_at: String::new(),
    };
    let shown = file_response(meta, "/");
    assert!(shown.is_dir);
    assert_eq!(shown.name, "srv");
    assert_eq!(shown.permission, "drwxr-xr-x");
}
