use file_finder::text::ends_with;
use file_finder::walker::{find_files, highlight_file, Entry};
use file_finder::{HIGHLIGHT_END, HIGHLIGHT_START};

fn plain(line: &str) -> String {
    line.replace(HIGHLIGHT_START, "").replace(HIGHLIGHT_END, "")
}

fn file(path: &str) -> Entry {
    let name = match path.rfind('/') {
        Some(slash) => &path[slash + 1..],
        None => path,
    };
    Entry::File { path: String::from(path), name: String::from(name) }
}

fn dir(path: &str, entries: Vec<Entry>) -> Entry {
    Entry::Directory { path: String::from(path), entries }
}

fn unreadable(path: &str) -> Entry {
    Entry::Unreadable { path: String::from(path) }
}

#[test]
fn walker_excludes_directories() {
    let root = dir("root", vec![dir("root/subdir", vec![])]);
    assert!(root.is_well_formed());
    assert_eq!(find_files(&root, "subdir"), Vec::<String>::new());
    assert_eq!(find_files(&root, "sub"), Vec::<String>::new());
    assert_eq!(find_files(&root, "root"), Vec::<String>::new());
    assert_eq!(find_files(&root, "anything"), Vec::<String>::new());
}

#[test]
fn walker_excludes_non_matching_files() {
    let root = dir("root", vec![file("root/foo.txt")]);
    assert!(root.is_well_formed());
    assert_eq!(find_files(&root, "bar"), Vec::<String>::new());
}

#[test]
fn walker_searches_the_base_name_only() {
    let root = dir("data", vec![dir("data/sub", vec![file("data/sub/notes.txt")])]);
    assert_eq!(find_files(&root, "data"), Vec::<String>::new());
    assert_eq!(find_files(&root, "sub"), Vec::<String>::new());
    assert_eq!(find_files(&root, "/"), Vec::<String>::new());
}

#[test]
fn walker_includes_matching_file_with_its_full_path() {
    let root = dir("root", vec![file("root/abc.txt")]);
    let found = find_files(&root, "abc");
    assert_eq!(found, vec![String::from("root/\x1b[32mabc\x1b[0m.txt")]);
    assert_eq!(plain(&found[0]), "root/abc.txt");
}

#[test]
fn walker_highlights_in_the_base_name_when_the_directory_matches_too() {
    let root = dir("data", vec![file("data/data.csv")]);
    assert_eq!(
        find_files(&root, "data"),
        vec![String::from("data/\x1b[32mdata\x1b[0m.csv")]
    );
}

#[test]
fn walker_goes_on_past_an_unreadable_subdirectory() {
    let root = dir("root", vec![unreadable("root/a"), file("root/b.txt")]);
    assert!(root.is_well_formed());
    assert_eq!(
        find_files(&root, "b"),
        vec![String::from("root/\x1b[32mb\x1b[0m.txt")]
    );
    let root = dir("root", vec![file("root/b.txt"), unreadable("root/a")]);
    assert_eq!(
        find_files(&root, "b"),
        vec![String::from("root/\x1b[32mb\x1b[0m.txt")]
    );
}

#[test]
fn walker_yields_nothing_for_a_root_that_is_no_listed_directory() {
    assert_eq!(find_files(&unreadable("root"), "root"), Vec::<String>::new());
    assert_eq!(find_files(&file("root/abc.txt"), "abc"), Vec::<String>::new());
    assert_eq!(find_files(&dir("root", vec![]), ""), Vec::<String>::new());
}

#[test]
fn walker_end_to_end() {
    let root = dir(
        "root",
        vec![
            file("root/data.csv"),
            file("root/notes.txt"),
            dir("root/sub", vec![file("root/sub/data.json")]),
        ],
    );
    assert!(root.is_well_formed());
    let mut found = find_files(&root, "data");
    found.sort();
    let mut expected = vec![
        String::from("root/\x1b[32mdata\x1b[0m.csv"),
        String::from("root/sub/\x1b[32mdata\x1b[0m.json"),
    ];
    expected.sort();
    assert_eq!(found, expected);
    let mut paths: Vec<String> = found.iter().map(|line| plain(line)).collect();
    paths.sort();
    assert_eq!(paths, vec![String::from("root/data.csv"), String::from("root/sub/data.json")]);
}

#[test]
fn walker_keeps_enumeration_order_with_subdirectories_in_place() {
    let root = dir(
        "r",
        vec![
            file("r/x1"),
            dir("r/d", vec![file("r/d/x2"), dir("r/d/e", vec![file("r/d/e/x3")]), file("r/d/x4")]),
            file("r/y"),
            dir("r/empty", vec![]),
            file("r/x5"),
        ],
    );
    let found: Vec<String> = find_files(&root, "x").iter().map(|line| plain(line)).collect();
    assert_eq!(found, vec!["r/x1", "r/d/x2", "r/d/e/x3", "r/d/x4", "r/x5"]);
}

#[test]
fn walker_lines_of_two_listings_follow_one_another() {
    let both = dir("r", vec![file("r/a1"), unreadable("r/u"), file("r/b"), file("r/a2")]);
    let first = dir("r", vec![file("r/a1"), unreadable("r/u")]);
    let second = dir("r", vec![file("r/b"), file("r/a2")]);
    let mut one_after_the_other = find_files(&first, "a");
    one_after_the_other.extend(find_files(&second, "a"));
    assert_eq!(find_files(&both, "a"), one_after_the_other);
}

#[test]
fn walker_marks_only_the_first_occurrence_in_the_name() {
    let root = dir("a", vec![file("a/aXaXa")]);
    assert_eq!(find_files(&root, "a"), vec![String::from("a/\x1b[32ma\x1b[0mXaXa")]);
}

#[test]
fn highlight_file_joins_parent_prefix_and_highlighted_name() {
    assert_eq!(
        highlight_file("root/sub/data.json", "data.json", "json"),
        Some(String::from("root/sub/data.\x1b[32mjson\x1b[0m"))
    );
    assert_eq!(highlight_file("root/sub/data.json", "data.json", "sub"), None);
    assert_eq!(
        highlight_file("data.json", "data.json", "data"),
        Some(String::from("\x1b[32mdata\x1b[0m.json"))
    );
}

#[test]
fn highlight_file_beyond_ascii() {
    assert_eq!(
        highlight_file("caf\u{e9}/r\u{e9}sum\u{e9}.txt", "r\u{e9}sum\u{e9}.txt", "sum"),
        Some(String::from("caf\u{e9}/r\u{e9}\x1b[32msum\x1b[0m\u{e9}.txt"))
    );
}

#[test]
fn ends_with_tells_a_base_name_from_another_string() {
    assert!(ends_with("root/abc.txt", "abc.txt"));
    assert!(ends_with("abc.txt", "abc.txt"));
    assert!(ends_with("root/abc.txt", ""));
    assert!(!ends_with("root/abc.txt", "abc"));
    assert!(!ends_with("c.txt", "abc.txt"));
    assert!(!ends_with("root/abc.txt", "abd.txt"));
    assert!(ends_with("caf\u{e9}/\u{e9}", "\u{e9}"));
}

#[test]
fn well_formed_trees_are_told_from_others() {
    let good = dir("r", vec![file("r/a"), dir("r/d", vec![file("r/d/b")]), unreadable("r/u")]);
    assert!(good.is_well_formed());
    let stray = Entry::File { path: String::from("r/a"), name: String::from("b") };
    assert!(!stray.is_well_formed());
    let bad = dir("r", vec![file("r/a"), dir("r/d", vec![stray])]);
    assert!(!bad.is_well_formed());
    assert!(unreadable("r").is_well_formed());
}
