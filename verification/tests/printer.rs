use file_finder::printer::{display_line, display_lines};
use file_finder::walker::{find_files, Entry};
use file_finder::{HIGHLIGHT_END, HIGHLIGHT_START};

fn plain(line: &str) -> String {
    line.replace(HIGHLIGHT_START, "").replace(HIGHLIGHT_END, "")
}

#[test]
fn display_line_highlights_the_first_occurrence() {
    assert_eq!(display_line("root/abc.txt", "abc"), "root/\x1b[32mabc\x1b[0m.txt");
    assert_eq!(display_line("abc/abc.txt", "abc"), "\x1b[32mabc\x1b[0m/abc.txt");
}

#[test]
fn display_line_falls_back_to_the_line_unchanged() {
    assert_eq!(display_line("root/foo.txt", "bar"), "root/foo.txt");
    assert_eq!(display_line("", "bar"), "");
}

#[test]
fn display_lines_gives_one_line_for_each_in_order() {
    let files = vec![
        String::from("root/data.csv"),
        String::from("root/notes.txt"),
        String::from("root/sub/data.json"),
    ];
    assert_eq!(
        display_lines(&files, "data"),
        vec![
            String::from("root/\x1b[32mdata\x1b[0m.csv"),
            String::from("root/notes.txt"),
            String::from("root/sub/\x1b[32mdata\x1b[0m.json"),
        ]
    );
    assert_eq!(display_lines(&Vec::new(), "data"), Vec::<String>::new());
}

#[test]
fn second_pass_wraps_the_match_once_more() {
    let walked = vec![String::from("root/\x1b[32mdata\x1b[0m.csv")];
    assert_eq!(
        display_lines(&walked, "data"),
        vec![String::from("root/\x1b[32m\x1b[32mdata\x1b[0m\x1b[0m.csv")]
    );
}

#[test]
fn second_pass_marks_the_directory_when_it_matches_first() {
    let walked = vec![String::from("data/\x1b[32mdata\x1b[0m.csv")];
    assert_eq!(
        display_lines(&walked, "data"),
        vec![String::from("\x1b[32mdata\x1b[0m/\x1b[32mdata\x1b[0m.csv")]
    );
}

#[test]
fn second_pass_may_match_inside_a_marker() {
    let walked = vec![String::from("\x1b[32mm\x1b[0m.txt")];
    assert_eq!(
        display_lines(&walked, "m"),
        vec![String::from("\x1b[32\x1b[32mm\x1b[0mm\x1b[0m.txt")]
    );
}

#[test]
fn walk_then_display_end_to_end() {
    let root = Entry::Directory {
        path: String::from("root"),
        entries: vec![
            Entry::File { path: String::from("root/data.csv"), name: String::from("data.csv") },
            Entry::File { path: String::from("root/notes.txt"), name: String::from("notes.txt") },
            Entry::Directory {
                path: String::from("root/sub"),
                entries: vec![Entry::File {
                    path: String::from("root/sub/data.json"),
                    name: String::from("data.json"),
                }],
            },
        ],
    };
    let files = find_files(&root, "data");
    let mut shown = display_lines(&files, "data");
    shown.sort();
    let mut expected = vec![
        String::from("root/\x1b[32m\x1b[32mdata\x1b[0m\x1b[0m.csv"),
        String::from("root/sub/\x1b[32m\x1b[32mdata\x1b[0m\x1b[0m.json"),
    ];
    expected.sort();
    assert_eq!(shown, expected);
    let mut paths: Vec<String> = shown.iter().map(|line| plain(line)).collect();
    paths.sort();
    assert_eq!(paths, vec![String::from("root/data.csv"), String::from("root/sub/data.json")]);
    assert!(!paths.contains(&String::from("root/notes.txt")));
}
