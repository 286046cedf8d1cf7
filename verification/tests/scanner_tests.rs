use diverge::scanner::{scan_dir, ScanEntry};
use diverge::tree::{DirEntry, FsTree};

fn file(content: &str) -> FsTree {
    FsTree::File { size: content.len() as u64, content: Some(content.to_string()) }
}

fn dir(children: Vec<(&str, FsTree)>) -> FsTree {
    FsTree::Dir {
        entries: children
            .into_iter()
            .map(|(name, node)| DirEntry { name: name.to_string(), node })
            .collect(),
    }
}

fn empty_dir() -> FsTree {
    FsTree::Dir { entries: Vec::new() }
}

fn lookup<'a>(files: &'a [ScanEntry], rel: &str) -> Option<&'a ScanEntry> {
    files.iter().find(|e| e.rel_path == rel)
}

#[test]
fn scan_empty_dir() {
    let tree = empty_dir();
    let ign: Vec<String> = vec![];
    let (files, ignored) = scan_dir(&tree, "/root", &ign);
    assert!(files.is_empty());
    assert!(ignored.is_empty());
}

#[test]
fn scan_flat_files() {
    let tree = dir(vec![("a.txt", file("aaa")), ("b.txt", file("bbb"))]);
    let ign: Vec<String> = vec![];

    let (files, _) = scan_dir(&tree, "/root", &ign);
    assert_eq!(files.len(), 2);
    assert!(lookup(&files, "a.txt").is_some());
    assert!(lookup(&files, "b.txt").is_some());
    assert_eq!(lookup(&files, "a.txt").unwrap().content, "aaa");
}

#[test]
fn scan_nested_dirs() {
    let tree = dir(vec![("sub", dir(vec![("deep", dir(vec![("file.txt", file("content"))]))]))]);
    let ign: Vec<String> = vec![];

    let (files, _) = scan_dir(&tree, "/root", &ign);
    assert_eq!(files.len(), 1);
    assert!(lookup(&files, "sub/deep/file.txt").is_some());
}

#[test]
fn scan_ignores_specified_dirs() {
    let tree = dir(vec![
        ("node_modules", dir(vec![("pkg", dir(vec![("index.js", file("code"))]))])),
        ("app.js", file("code")),
    ]);
    let ign = vec!["node_modules".to_string()];

    let (files, ignored) = scan_dir(&tree, "/root", &ign);
    assert_eq!(files.len(), 1);
    assert!(lookup(&files, "app.js").is_some());
    assert_eq!(ignored, vec!["node_modules"]);
}

#[test]
fn scan_tracks_multiple_ignored_dirs() {
    let tree = dir(vec![
        ("node_modules", empty_dir()),
        (".git", empty_dir()),
        ("app.js", file("code")),
    ]);
    let ign = vec!["node_modules".to_string(), ".git".to_string()];

    let (files, mut ignored) = scan_dir(&tree, "/root", &ign);
    ignored.sort();
    assert_eq!(files.len(), 1);
    assert_eq!(ignored, vec![".git", "node_modules"]);
}

#[test]
fn scan_nonexistent_dir() {
    let tree = empty_dir();
    let ign: Vec<String> = vec![];
    let (files, ignored) = scan_dir(&tree, "/nonexistent/path/xyz", &ign);
    assert!(files.is_empty());
    assert!(ignored.is_empty());
}

#[test]
fn scan_stores_absolute_paths() {
    let tree = dir(vec![("file.txt", file("content"))]);
    let ign: Vec<String> = vec![];

    let (files, _) = scan_dir(&tree, "/some/root", &ign);
    let abs_path = &lookup(&files, "file.txt").unwrap().abs_path;
    assert!(abs_path.starts_with("/some/root"));
}

#[test]
fn scan_reads_file_content() {
    let tree = dir(vec![("file.txt", file("hello world"))]);
    let ign: Vec<String> = vec![];

    let (files, _) = scan_dir(&tree, "/root", &ign);
    assert_eq!(lookup(&files, "file.txt").unwrap().content, "hello world");
}

#[test]
fn scan_ignores_nested_matching_dir() {
    let tree = dir(vec![(
        "src",
        dir(vec![
            ("node_modules", dir(vec![("pkg", dir(vec![("index.js", file("code"))]))])),
            ("app.js", file("code")),
        ]),
    )]);
    let ign = vec!["node_modules".to_string()];

    let (files, ignored) = scan_dir(&tree, "/root", &ign);
    assert_eq!(files.len(), 1);
    assert!(lookup(&files, "src/app.js").is_some());
    assert_eq!(ignored, vec!["src/node_modules"]);
}

#[test]
fn scan_skips_oversized_file() {
    let tree = dir(vec![
        ("big.bin", FsTree::File { size: 10485761, content: Some("x".to_string()) }),
        ("edge.bin", FsTree::File { size: 10485760, content: Some("y".to_string()) }),
    ]);
    let ign: Vec<String> = vec![];

    let (files, _) = scan_dir(&tree, "/root", &ign);
    assert_eq!(files.len(), 1);
    assert!(lookup(&files, "big.bin").is_none());
    assert_eq!(lookup(&files, "edge.bin").unwrap().content, "y");
}

#[test]
fn scan_skips_unreadable_file() {
    let tree = dir(vec![
        ("binary.dat", FsTree::File { size: 4, content: None }),
        ("text.txt", file("ok")),
    ]);
    let ign: Vec<String> = vec![];

    let (files, _) = scan_dir(&tree, "/root", &ign);
    assert_eq!(files.len(), 1);
    assert!(lookup(&files, "text.txt").is_some());
}

#[test]
fn scan_output_sorted_by_rel_path() {
    let tree = dir(vec![
        ("b.txt", file("2")),
        ("a", dir(vec![("x.txt", file("3"))])),
        ("a.txt", file("1")),
    ]);
    let ign: Vec<String> = vec![];

    let (files, _) = scan_dir(&tree, "/root", &ign);
    let rels: Vec<&str> = files.iter().map(|e| e.rel_path.as_str()).collect();
    let mut sorted = rels.clone();
    sorted.sort();
    assert_eq!(rels, sorted);
    assert_eq!(rels, vec!["a.txt", "a/x.txt", "b.txt"]);
}
