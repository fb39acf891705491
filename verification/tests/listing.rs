use blackfiles::api::EntryInfo;
use blackfiles::api::list_entries;
use blackfiles::shared::FileEntry;
use blackfiles::shared::sanitize_path;

fn info(name: &str, is_dir: bool, size: u64, modified: u64) -> EntryInfo {
    EntryInfo { name: String::from(name), is_dir, size, modified }
}

fn same_entry(a: &FileEntry, b: &FileEntry) -> bool {
    a.name == b.name && a.is_dir == b.is_dir && a.path == b.path && a.size == b.size
        && a.modified == b.modified
}

#[test]
fn listing_of_docs_shows_only_the_visible_file() {
    let parent = sanitize_path("docs").expect("normal path");
    let infos = vec![info("a.txt", false, 10, 1000), info(".secret", false, 5, 1000)];
    let r = list_entries(&parent, infos);
    assert_eq!(r.len(), 1);
    assert_eq!(r[0].name, "a.txt");
    assert!(!r[0].is_dir);
    assert_eq!(r[0].path, "docs/a.txt");
    assert_eq!(r[0].size, 10);
}

#[test]
fn root_listing_orders_directories_alphabetically_before_files() {
    let root = sanitize_path("").expect("root");
    let infos = vec![
        info("img", true, 0, 7),
        info("notes.txt", false, 3, 8),
        info("docs", true, 0, 9),
    ];
    let r = list_entries(&root, infos);
    assert_eq!(r.len(), 3);
    assert_eq!(r[0].name, "docs");
    assert!(r[0].is_dir);
    assert_eq!(r[0].path, "docs");
    assert_eq!(r[1].name, "img");
    assert!(r[1].is_dir);
    assert_eq!(r[1].path, "img");
    assert_eq!(r[2].name, "notes.txt");
    assert!(!r[2].is_dir);
}

#[test]
fn listing_sorts_within_each_group_by_name() {
    let root = sanitize_path("").expect("root");
    let infos = vec![
        info("b.txt", false, 1, 1),
        info("zdir", true, 0, 1),
        info("a.txt", false, 1, 1),
        info("adir", true, 0, 1),
    ];
    let r = list_entries(&root, infos);
    let names: Vec<&str> = r.iter().map(|e| e.name.as_str()).collect();
    assert_eq!(names, vec!["adir", "zdir", "a.txt", "b.txt"]);
    assert!(r[0].is_dir && r[1].is_dir && !r[2].is_dir && !r[3].is_dir);
}

#[test]
fn listing_never_reports_hidden_entries() {
    let parent = sanitize_path("docs").expect("normal path");
    let infos = vec![
        info(".hidden", true, 0, 1),
        info("seen", true, 0, 1),
        info(".x", false, 2, 1),
        info("y", false, 2, 1),
    ];
    let r = list_entries(&parent, infos);
    assert_eq!(r.len(), 2);
    for e in &r {
        assert!(!e.name.starts_with('.'));
    }
}

#[test]
fn listing_is_idempotent_on_unchanged_input() {
    let parent = sanitize_path("docs").expect("normal path");
    let build = || {
        vec![
            info("b", false, 2, 20),
            info("a", true, 0, 10),
            info(".skip", false, 1, 5),
            info("c", true, 0, 30),
        ]
    };
    let first = list_entries(&parent, build());
    let second = list_entries(&parent, build());
    assert_eq!(first.len(), second.len());
    for (x, y) in first.iter().zip(second.iter()) {
        assert!(same_entry(x, y));
    }
}

#[test]
fn listing_keeps_size_and_modified_of_each_entry() {
    let parent = sanitize_path("docs").expect("normal path");
    let infos = vec![info("only", false, 12345, 1700000000)];
    let r = list_entries(&parent, infos);
    assert_eq!(r.len(), 1);
    assert_eq!(r[0].size, 12345);
    assert_eq!(r[0].modified, 1700000000);
}
