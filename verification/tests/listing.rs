use api_stub::listing::{
    collect_json_entries, collect_json_index, collect_subdir_entries, collect_subdirs, entries_of,
    le_chars, sort_texts, strings_of, with_slashes,
};

fn chars(s: &str) -> Vec<char> {
    s.chars().collect()
}

fn strings(v: &[&str]) -> Vec<String> {
    v.iter().map(|s| s.to_string()).collect()
}

fn entry(rel: &str) -> (String, String) {
    (rel.to_string(), format!("/json/{}", rel))
}

#[test]
fn the_order_is_that_of_strings() {
    let words = ["", "a", "A", "ab", "b", "a/b", "a.b", "é", "z", "aa", "\u{10000}", "\u{FFFF}"];
    for a in words {
        for b in words {
            assert_eq!(le_chars(&chars(a), &chars(b)), a <= b, "{:?} <= {:?}", a, b);
        }
    }
}

#[test]
fn sorting_agrees_with_std() {
    let words = ["pear", "apple", "fig", "", "apple", "Apple", "fig/2", "fig.1", "é", "zebra"];
    let mut expected: Vec<Vec<char>> = words.iter().map(|w| chars(w)).collect();
    let sorted = sort_texts(expected.clone());
    expected.sort_by(|a, b| {
        let x: String = a.iter().collect();
        let y: String = b.iter().collect();
        x.cmp(&y)
    });
    assert_eq!(sorted, expected);
    assert_eq!(sort_texts(vec![]), Vec::<Vec<char>>::new());
}

#[test]
fn vectors_of_characters_become_strings_and_entries() {
    let items = vec![chars("a/b.json"), chars("c.json")];
    assert_eq!(strings_of(&items), strings(&["a/b.json", "c.json"]));
    assert_eq!(entries_of(&items), vec![entry("a/b.json"), entry("c.json")]);
}

#[test]
fn folders_are_listed_sorted_and_without_unsafe_names() {
    assert_eq!(
        collect_subdirs(&strings(&["users", "..", "auth", "a\\b", "", "ping", "auth2"])),
        strings(&["auth", "auth2", "ping", "users"])
    );
    assert_eq!(collect_subdirs(&vec![]), Vec::<String>::new());
}

#[test]
fn the_files_of_a_folder_are_listed_with_their_addresses() {
    assert_eq!(
        collect_subdir_entries("users", &strings(&["b.json", "a.json", "..", "c/d.json"])),
        vec![entry("users/a.json"), entry("users/b.json")]
    );
    assert_eq!(collect_subdir_entries("users", &vec![]), vec![]);
}

#[test]
fn backslashes_become_slashes() {
    assert_eq!(with_slashes("a\\b\\c.json"), chars("a/b/c.json"));
    assert_eq!(with_slashes("a/b"), chars("a/b"));
    assert_eq!(with_slashes(""), chars(""));
}

#[test]
fn all_files_are_listed_sorted_by_their_relative_paths() {
    assert_eq!(
        collect_json_entries(&strings(&[
            "users/b.json",
            "auth/refresh.json",
            "users\\a.json",
            "top.json",
            "../outside.json",
            "users//c.json",
            "",
        ])),
        vec![
            entry("auth/refresh.json"),
            entry("top.json"),
            entry("users/a.json"),
            entry("users/b.json"),
        ]
    );
}

#[test]
fn the_index_holds_both_listings() {
    let (files, folders) =
        collect_json_index(&strings(&["b/x.json", "a/y.json"]), &strings(&["b", "a", "."]));
    assert_eq!(files, vec![entry("a/y.json"), entry("b/x.json")]);
    assert_eq!(folders, strings(&["a", "b"]));
}
