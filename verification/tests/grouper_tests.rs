use std::collections::HashMap;

use dupy::grouper::{
    filter_min_size, find_duplicates, group_by_hash, group_by_size, sort_by_wasted, DuplicateSet,
    FileInfo, Request,
};
use dupy::grouping::{keep_shared, KeyGroup};

fn file(path: &str, size: u64) -> FileInfo {
    FileInfo { path: path.to_string(), size }
}

fn set(files: &[&str], size: u64) -> DuplicateSet {
    DuplicateSet { files: files.iter().map(|s| s.to_string()).collect(), size }
}

fn view(groups: &[KeyGroup]) -> Vec<(u64, Vec<String>)> {
    groups.iter().map(|g| (g.key, g.paths.clone())).collect()
}

fn strings(list: &[&str]) -> Vec<String> {
    list.iter().map(|s| s.to_string()).collect()
}

/// Runs a whole search over files whose contents are given, hashing a file
/// by its content's length and comparing contents; `unreadable` files give
/// no answers. Returns the sets and the requests made.
fn run_search(
    files: &[(&str, u64, &str)],
    min_size: u64,
    unreadable: &[&str],
) -> (Vec<(u64, Vec<String>)>, Vec<String>) {
    let infos: Vec<FileInfo> = files.iter().map(|(p, s, _)| file(p, *s)).collect();
    let content: HashMap<String, String> =
        files.iter().map(|(p, _, c)| (p.to_string(), c.to_string())).collect();
    let mut search = find_duplicates(&infos, min_size);
    let mut log = Vec::new();
    loop {
        match search.request() {
            Request::Hash(p) => {
                log.push(format!("hash {}", p));
                let h = if unreadable.contains(&p.as_str()) {
                    None
                } else {
                    Some(content[&p].chars().next().map(|c| c as u64).unwrap_or(0))
                };
                search.answer_hash(h);
            }
            Request::Compare(a, b) => {
                log.push(format!("compare {} {}", a, b));
                let same = if unreadable.contains(&a.as_str()) || unreadable.contains(&b.as_str()) {
                    None
                } else {
                    Some(content[&a] == content[&b])
                };
                search.answer_compare(same);
            }
            Request::Done => break,
        }
    }
    let sets = search.finish();
    (sets.into_iter().map(|s| (s.size, s.files)).collect(), log)
}

#[test]
fn min_size_filter_keeps_order() {
    let files = vec![file("a", 5), file("b", 1), file("c", 9), file("d", 5)];
    let kept = filter_min_size(&files, 5);
    let paths: Vec<&str> = kept.iter().map(|f| f.path.as_str()).collect();
    assert_eq!(paths, vec!["a", "c", "d"]);
    assert_eq!(filter_min_size(&files, 0).len(), 4);
    assert_eq!(filter_min_size(&files, 10).len(), 0);
}

#[test]
fn sizes_group_in_order_of_first_appearance() {
    let files = vec![file("a", 5), file("b", 1), file("c", 5), file("d", 1), file("e", 7)];
    let groups = group_by_size(&files);
    assert_eq!(
        view(&groups),
        vec![
            (5, strings(&["a", "c"])),
            (1, strings(&["b", "d"])),
            (7, strings(&["e"])),
        ]
    );
    assert_eq!(
        view(&keep_shared(groups)),
        vec![(5, strings(&["a", "c"])), (1, strings(&["b", "d"]))]
    );
}

#[test]
fn hashes_group_and_unknown_hashes_drop_out() {
    let paths = strings(&["a", "b", "c", "d", "e"]);
    let hashes = vec![Some(3), None, Some(4), Some(3), Some(4)];
    let groups = group_by_hash(&paths, &hashes);
    assert_eq!(
        view(&groups),
        vec![(3, strings(&["a", "d"])), (4, strings(&["c", "e"]))]
    );
}

#[test]
fn wasted_space_orders_sets_stably() {
    let sets = vec![
        set(&["a1", "a2"], 10),
        set(&["b1", "b2", "b3"], 10),
        set(&["c1", "c2"], 20),
        set(&["d1", "d2"], 10),
        set(&["e1", "e2", "e3", "e4", "e5"], 0),
    ];
    let sorted = sort_by_wasted(sets);
    let firsts: Vec<&str> = sorted.iter().map(|s| s.files[0].as_str()).collect();
    // b and c waste 20 bytes each, a and d 10, e nothing; ties keep their order.
    assert_eq!(firsts, vec!["b1", "c1", "a1", "d1", "e1"]);
}

#[test]
fn search_finds_identical_files() {
    let (sets, _) = run_search(
        &[
            ("/x/report.pdf", 300, "r-content"),
            ("/x/unique.txt", 17, "unique"),
            ("/y/report.pdf", 300, "r-content"),
            ("/y/photo.jpg", 200, "photo"),
            ("/z/report.pdf", 300, "r-content"),
            ("/z/photo.jpg", 200, "photo"),
            ("/z/other.jpg", 200, "pxxxx"),
        ],
        0,
        &[],
    );
    assert_eq!(
        sets,
        vec![
            (300, strings(&["/x/report.pdf", "/y/report.pdf", "/z/report.pdf"])),
            (200, strings(&["/y/photo.jpg", "/z/photo.jpg"])),
        ]
    );
}

#[test]
fn search_asks_in_the_original_order() {
    let (_, log) = run_search(
        &[("a", 4, "xx"), ("b", 4, "xy"), ("c", 4, "xx"), ("d", 9, "q"), ("e", 4, "xy")],
        0,
        &[],
    );
    assert_eq!(
        log,
        vec![
            "hash a", "hash b", "hash c", "hash e", // size 4; size 9 has one file
            "compare a b", "compare a c", "compare a e", // a finds c
            "compare b e", // b finds e
        ]
    );
}

#[test]
fn unreadable_files_are_skipped() {
    let (sets, _) = run_search(
        &[("a", 4, "same"), ("b", 4, "same"), ("c", 4, "same")],
        0,
        &["b"],
    );
    assert_eq!(sets, vec![(4, strings(&["a", "c"]))]);
}

#[test]
fn small_files_are_ignored() {
    let (sets, log) = run_search(&[("a", 4, "same"), ("b", 4, "same")], 5, &[]);
    assert!(sets.is_empty());
    assert!(log.is_empty());
}

#[test]
fn same_hash_different_contents_leave_no_set() {
    let (sets, _) = run_search(&[("a", 4, "x1"), ("b", 4, "x2")], 0, &[]);
    assert!(sets.is_empty());
}

#[test]
fn empty_search_is_done_at_once() {
    let search = find_duplicates(&Vec::new(), 0);
    assert!(matches!(search.request(), Request::Done));
    assert!(search.finish().is_empty());
}
