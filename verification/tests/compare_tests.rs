use diverge::compare::compare;
use diverge::tree::{DirEntry, FsTree};

fn file(content: &str) -> FsTree {
    FsTree::File { size: content.len() as u64, content: Some(content.to_string()) }
}

fn dir(children: Vec<(&str, FsTree)>) -> FsTree {
    FsTree::Dir {
        entries: children
            .into_iter()
            .map(|(name, node)| DirEntry { name: name.to_string(), node })
            .collect(),
    }
}

fn empty_dir() -> FsTree {
    FsTree::Dir { entries: Vec::new() }
}

#[test]
fn identical_files() {
    let left = dir(vec![("file.txt", file("hello"))]);
    let right = dir(vec![("file.txt", file("hello"))]);
    let ign: Vec<String> = vec![];

    let result = compare(&left, "/left", &right, "/right", &ign);

    assert_eq!(result.total, 1);
    assert_eq!(result.identical, 1);
    assert_eq!(result.different, 0);
    assert_eq!(result.entries[0].status, "identical");
}

#[test]
fn different_files() {
    let left = dir(vec![("file.txt", file("hello"))]);
    let right = dir(vec![("file.txt", file("world"))]);
    let ign: Vec<String> = vec![];

    let result = compare(&left, "/left", &right, "/right", &ign);

    assert_eq!(result.total, 1);
    assert_eq!(result.different, 1);
    assert_eq!(result.entries[0].status, "different");
    assert_eq!(result.entries[0].left_content, "hello");
    assert_eq!(result.entries[0].right_content, "world");
}

#[test]
fn only_left() {
    let left = dir(vec![("only-here.txt", file("content"))]);
    let right = empty_dir();
    let ign: Vec<String> = vec![];

    let result = compare(&left, "/left", &right, "/right", &ign);

    assert_eq!(result.total, 1);
    assert_eq!(result.only_left, 1);
    assert_eq!(result.entries[0].status, "only_left");
}

#[test]
fn only_right() {
    let left = empty_dir();
    let right = dir(vec![("only-here.txt", file("content"))]);
    let ign: Vec<String> = vec![];

    let result = compare(&left, "/left", &right, "/right", &ign);

    assert_eq!(result.total, 1);
    assert_eq!(result.only_right, 1);
    assert_eq!(result.entries[0].status, "only_right");
}

#[test]
fn empty_dirs() {
    let left = empty_dir();
    let right = empty_dir();
    let ign: Vec<String> = vec![];

    let result = compare(&left, "/left", &right, "/right", &ign);

    assert_eq!(result.total, 0);
}

#[test]
fn nested_directories() {
    let left = dir(vec![("sub", dir(vec![("deep", dir(vec![("file.yaml", file("key: a"))]))]))]);
    let right = dir(vec![("sub", dir(vec![("deep", dir(vec![("file.yaml", file("key: b"))]))]))]);
    let ign: Vec<String> = vec![];

    let result = compare(&left, "/left", &right, "/right", &ign);

    assert_eq!(result.total, 1);
    assert_eq!(result.different, 1);
    assert_eq!(result.entries[0].rel_path, "sub/deep/file.yaml");
}

#[test]
fn mixed_statuses() {
    let left = dir(vec![
        ("same.txt", file("same")),
        ("diff.txt", file("left")),
        ("left-only.txt", file("x")),
    ]);
    let right = dir(vec![
        ("same.txt", file("same")),
        ("diff.txt", file("right")),
        ("right-only.txt", file("x")),
    ]);
    let ign: Vec<String> = vec![];

    let result = compare(&left, "/left", &right, "/right", &ign);

    assert_eq!(result.total, 4);
    assert_eq!(result.identical, 1);
    assert_eq!(result.different, 1);
    assert_eq!(result.only_left, 1);
    assert_eq!(result.only_right, 1);
}

#[test]
fn nonexistent_dir() {
    let left = empty_dir();
    let right = dir(vec![("file.txt", file("content"))]);
    let ign: Vec<String> = vec![];

    let result = compare(&left, "/nonexistent/path", &right, "/right", &ign);

    assert_eq!(result.total, 1);
    assert_eq!(result.only_right, 1);
}

#[test]
fn ignored_dirs_tracked() {
    let left = dir(vec![
        ("node_modules", dir(vec![("pkg", dir(vec![("index.js", file("module"))]))])),
        ("app.js", file("hello")),
    ]);
    let right = dir(vec![
        (".git", dir(vec![("objects", dir(vec![("abc", file("blob"))]))])),
        ("app.js", file("hello")),
    ]);
    let ign: Vec<String> = vec!["node_modules".to_string(), ".git".to_string()];

    let result = compare(&left, "/left", &right, "/right", &ign);

    assert_eq!(result.total, 1);
    assert_eq!(result.identical, 1);
    assert!(result.ignored_dirs.contains(&"node_modules".to_string()));
    assert!(result.ignored_dirs.contains(&".git".to_string()));
    assert_eq!(result.ignored_dirs.len(), 2);
}
