use minishell::search::{find_in_paths, split_search_path, DirListing};

fn listing(dir: &str, entries: &[&str]) -> DirListing {
    DirListing { dir: dir.to_string(), entries: entries.iter().map(|e| e.to_string()).collect() }
}

#[test]
fn search_path_splits_at_colons() {
    assert_eq!(split_search_path("/bin:/usr/bin"), vec!["/bin".to_string(), "/usr/bin".to_string()]);
}

#[test]
fn search_path_keeps_empty_pieces() {
    assert_eq!(split_search_path(""), vec!["".to_string()]);
    assert_eq!(
        split_search_path("a::b:"),
        vec!["a".to_string(), "".to_string(), "b".to_string(), "".to_string()]
    );
}

#[test]
fn first_directory_holding_the_name_wins() {
    let dirs = vec![
        listing("/usr/local/bin", &["node"]),
        listing("/usr/bin", &["ls", "cat"]),
        listing("/bin", &["ls"]),
    ];
    assert_eq!(find_in_paths("ls", &dirs), Some("/usr/bin/ls".to_string()));
    assert_eq!(find_in_paths("node", &dirs), Some("/usr/local/bin/node".to_string()));
}

#[test]
fn missing_name_is_not_found() {
    let dirs = vec![listing("/bin", &["ls"]), listing("/usr/bin", &["cat"])];
    assert_eq!(find_in_paths("vim", &dirs), None);
}

#[test]
fn empty_search_path_finds_nothing() {
    assert_eq!(find_in_paths("ls", &Vec::new()), None);
}

#[test]
fn unreadable_directory_is_skipped() {
    let dirs = vec![listing("/root/bin", &[]), listing("/bin", &["ls"])];
    assert_eq!(find_in_paths("ls", &dirs), Some("/bin/ls".to_string()));
}

#[test]
fn match_must_be_exact() {
    let dirs = vec![listing("/bin", &["lsblk", "LS"])];
    assert_eq!(find_in_paths("ls", &dirs), None);
}
