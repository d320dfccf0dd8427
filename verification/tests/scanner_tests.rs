use std::collections::HashMap;

use dupy::scanner::{
    active_excludes, default_excludes, is_excluded, walk_directory, walk_directory_names, Entry,
};

fn strings(list: &[&str]) -> Vec<String> {
    list.iter().map(|s| s.to_string()).collect()
}

/// A small tree: directories list their children in the order given.
fn tree() -> HashMap<String, Vec<String>> {
    let mut t = HashMap::new();
    t.insert("/r".to_string(), strings(&["/r/a.txt", "/r/sub", "/r/Thumbs.db", "/r/link", "/r/z.tmp"]));
    t.insert("/r/sub".to_string(), strings(&["/r/sub/b.txt", "/r/sub/locked", "/r/sub/~$doc.docx"]));
    t.insert("/r/sub/locked".to_string(), Vec::new());
    t
}

fn entry(path: &str, t: &HashMap<String, Vec<String>>) -> Entry {
    if path == "/r/sub/locked" {
        return Entry::Directory { children: None };
    }
    if path == "/r/link" {
        return Entry::Link;
    }
    match t.get(path) {
        Some(children) => Entry::Directory { children: Some(children.clone()) },
        None => Entry::File {
            name: Some(path.rsplit('/').next().unwrap().to_string()),
            size: path.len() as u64,
        },
    }
}

#[test]
fn junk_patterns() {
    assert_eq!(
        default_excludes(),
        strings(&["Thumbs.db", ".DS_Store", "desktop.ini", "~$*", "*.tmp", "*.lnk"])
    );
    assert_eq!(active_excludes(&strings(&["*.bak"]), true), strings(&["*.bak"]));
    assert_eq!(
        active_excludes(&strings(&["*.bak"]), false),
        strings(&["*.bak", "Thumbs.db", ".DS_Store", "desktop.ini", "~$*", "*.tmp", "*.lnk"])
    );
}

#[test]
fn exclusion_by_pattern() {
    let junk = default_excludes();
    assert!(is_excluded("Thumbs.db", &junk));
    assert!(is_excluded("~$report.docx", &junk));
    assert!(is_excluded("setup.tmp", &junk));
    assert!(is_excluded("shortcut.lnk", &junk));
    assert!(!is_excluded("thumbs.db", &junk));
    assert!(!is_excluded("notes.txt", &junk));
    assert!(!is_excluded("anything", &Vec::new()));
}

#[test]
fn walk_skips_junk_and_links_depth_first() {
    let t = tree();
    let mut walk = walk_directory("/r".to_string(), &Vec::new(), false);
    let mut visited = Vec::new();
    while let Some(p) = walk.next_path() {
        visited.push(p.clone());
        walk.visit(entry(&p, &t));
    }
    assert_eq!(
        visited,
        strings(&[
            "/r",
            "/r/a.txt",
            "/r/sub",
            "/r/sub/b.txt",
            "/r/sub/locked",
            "/r/sub/~$doc.docx",
            "/r/Thumbs.db",
            "/r/link",
            "/r/z.tmp",
        ])
    );
    let files: Vec<(String, u64)> = walk.into_files().into_iter().map(|f| (f.path, f.size)).collect();
    assert_eq!(files, vec![("/r/a.txt".to_string(), 8), ("/r/sub/b.txt".to_string(), 12)]);
}

#[test]
fn walk_with_junk_and_user_patterns() {
    let t = tree();
    let mut walk = walk_directory("/r".to_string(), &strings(&["*.txt"]), true);
    while let Some(p) = walk.next_path() {
        walk.visit(entry(&p, &t));
    }
    let paths: Vec<String> = walk.into_files().into_iter().map(|f| f.path).collect();
    assert_eq!(paths, strings(&["/r/sub/~$doc.docx", "/r/Thumbs.db", "/r/z.tmp"]));
}

#[test]
fn files_without_utf8_names_are_kept() {
    let mut walk = walk_directory("/f".to_string(), &strings(&["*"]), false);
    walk.visit(Entry::File { name: None, size: 3 });
    assert_eq!(walk.into_files().len(), 1);
}

#[test]
fn unreadable_and_special_entries_are_passed_over() {
    let mut walk = walk_directory("/r".to_string(), &Vec::new(), false);
    walk.visit(Entry::Directory { children: Some(strings(&["/r/x", "/r/y"])) });
    walk.visit(Entry::Unreadable);
    walk.visit(Entry::Special);
    assert!(walk.next_path().is_none());
    assert!(walk.into_files().is_empty());
}

#[test]
fn name_walk_lists_every_file() {
    let t = tree();
    let mut walk = walk_directory_names("/r".to_string());
    while let Some(p) = walk.next_path() {
        walk.visit(entry(&p, &t));
    }
    let names: Vec<String> = walk.into_entries().into_iter().map(|(n, _)| n).collect();
    assert_eq!(
        names,
        strings(&["a.txt", "b.txt", "~$doc.docx", "Thumbs.db", "z.tmp"])
    );
}
