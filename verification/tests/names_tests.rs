use dupy::names::{find_name_duplicates, group_by_name, name_less};

fn entry(name: &str, path: &str) -> (String, String) {
    (name.to_string(), path.to_string())
}

#[test]
fn name_groups_sorted_by_name() {
    let entries = vec![
        entry("report.pdf", "/a/report.pdf"),
        entry("photo1.jpg", "/p/photo1.jpg"),
        entry("unique.txt", "/u/unique.txt"),
        entry("report.pdf", "/b/report.pdf"),
        entry("photo1.jpg", "/p/backup/photo1.jpg"),
        entry("report.pdf", "/c/report.pdf"),
    ];
    let groups = find_name_duplicates(&entries);
    assert_eq!(groups.len(), 2);
    assert_eq!(groups[0].name, "photo1.jpg");
    assert_eq!(groups[0].files, vec!["/p/photo1.jpg", "/p/backup/photo1.jpg"]);
    assert_eq!(groups[1].name, "report.pdf");
    assert_eq!(groups[1].files, vec!["/a/report.pdf", "/b/report.pdf", "/c/report.pdf"]);
}

#[test]
fn names_group_in_order_of_first_appearance() {
    let entries = vec![entry("b", "1"), entry("a", "2"), entry("b", "3")];
    let groups = group_by_name(&entries);
    assert_eq!(groups.len(), 2);
    assert_eq!(groups[0].name, "b");
    assert_eq!(groups[0].files, vec!["1", "3"]);
    assert_eq!(groups[1].name, "a");
}

#[test]
fn names_compare_by_code_point() {
    assert!(name_less(&"B".to_string(), &"a".to_string()));
    assert!(name_less(&"a".to_string(), &"ab".to_string()));
    assert!(!name_less(&"ab".to_string(), &"ab".to_string()));
    assert!(name_less(&"z".to_string(), &"é".to_string()));
    assert!(!name_less(&"b".to_string(), &"a".to_string()));
}

#[test]
fn no_shared_names() {
    let entries = vec![entry("a", "1"), entry("b", "2")];
    assert!(find_name_duplicates(&entries).is_empty());
    assert!(find_name_duplicates(&Vec::new()).is_empty());
}
