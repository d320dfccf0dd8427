use dupy::glob::glob_match;

#[test]
fn star_matches_any_run() {
    assert!(glob_match("*.tmp", "report.tmp"));
    assert!(glob_match("*.tmp", ".tmp"));
    assert!(!glob_match("*.tmp", "report.tmp.bak"));
    assert!(glob_match("*", ""));
    assert!(glob_match("*", "anything at all"));
}

#[test]
fn question_matches_one_character() {
    assert!(glob_match("?.txt", "a.txt"));
    assert!(!glob_match("?.txt", ".txt"));
    assert!(!glob_match("?.txt", "ab.txt"));
    // `?` matches any single character, `é` and `日` too.
    assert!(glob_match("?", "é"));
    assert!(!glob_match("??", "é"));
    assert!(glob_match("?.txt", "日.txt"));
    assert!(glob_match("*é?", "caféé"));
}

#[test]
fn literal_is_exact_and_case_sensitive() {
    assert!(glob_match("Thumbs.db", "Thumbs.db"));
    assert!(!glob_match("Thumbs.db", "thumbs.db"));
    assert!(!glob_match("Thumbs.db", "Thumbs.db2"));
    assert!(glob_match("", ""));
    assert!(!glob_match("", "a"));
}

#[test]
fn prefix_star() {
    assert!(glob_match("~$*", "~$report.docx"));
    assert!(glob_match("~$*", "~$"));
    assert!(!glob_match("~$*", "report~$"));
}

#[test]
fn stars_backtrack() {
    assert!(glob_match("a*b*c", "axxbyyc"));
    assert!(glob_match("a*b*c", "abc"));
    assert!(!glob_match("a*b*c", "axxbyy"));
    assert!(glob_match("*a*", "banana"));
}
