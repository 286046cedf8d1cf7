use diverge::compare::compare;
use diverge::tree::{DirEntry, FsTree};

fn file(content: &str) -> FsTree {
    FsTree::File { size: content.len() as u64, content: Some(content.to_string()) }
}

fn dir(children: Vec<(&str, FsTree)>) -> FsTree {
    FsTree::Dir {
        entries: children
            .into_iter()
            .map(|(name, node)| DirEntry { name: name.to_string(), node })
            .collect(),
    }
}

fn empty_dir() -> FsTree {
    FsTree::Dir { entries: Vec::new() }
}

fn sample_left() -> FsTree {
    dir(vec![
        ("same.txt", file("same")),
        ("diff.txt", file("left")),
        ("left-only.txt", file("x")),
        ("sub", dir(vec![("inner.txt", file("deep"))])),
        ("node_modules", dir(vec![("pkg", dir(vec![("index.js", file("m"))]))])),
    ])
}

fn sample_right() -> FsTree {
    dir(vec![
        ("same.txt", file("same")),
        ("diff.txt", file("right")),
        ("right-only.txt", file("y")),
        ("node_modules", dir(vec![("other", dir(vec![("a.js", file("n"))]))])),
    ])
}

#[test]
fn total_equals_sum_of_counts() {
    let ign = vec!["node_modules".to_string()];
    let r = compare(&sample_left(), "/l", &sample_right(), "/r", &ign);
    assert_eq!(
        r.total,
        r.identical + r.different + r.only_left + r.only_right
    );
    assert_eq!(r.total, r.entries.len());
}

#[test]
fn entries_sorted_without_duplicates() {
    let ign: Vec<String> = vec![];
    // names chosen so that name order and full-path order disagree:
    // "a!" < "a" as directory contents go, but "a!" > "a/x.txt" is false
    let left = dir(vec![
        ("a", dir(vec![("x.txt", file("1"))])),
        ("a!", file("2")),
        ("ab", file("3")),
    ]);
    let r = compare(&left, "/l", &empty_dir(), "/r", &ign);
    let rels: Vec<&str> = r.entries.iter().map(|e| e.rel_path.as_str()).collect();
    assert_eq!(rels, vec!["a!", "a/x.txt", "ab"]);
    for w in rels.windows(2) {
        assert!(w[0] < w[1]);
    }
}

#[test]
fn repeated_comparison_is_identical() {
    let ign = vec!["node_modules".to_string()];
    let r1 = compare(&sample_left(), "/l", &sample_right(), "/r", &ign);
    let r2 = compare(&sample_left(), "/l", &sample_right(), "/r", &ign);
    assert_eq!(r1.total, r2.total);
    assert_eq!(r1.identical, r2.identical);
    assert_eq!(r1.different, r2.different);
    assert_eq!(r1.only_left, r2.only_left);
    assert_eq!(r1.only_right, r2.only_right);
    assert_eq!(r1.ignored_dirs, r2.ignored_dirs);
    assert_eq!(r1.entries.len(), r2.entries.len());
    for (e1, e2) in r1.entries.iter().zip(r2.entries.iter()) {
        assert_eq!(e1.rel_path, e2.rel_path);
        assert_eq!(e1.status, e2.status);
        assert_eq!(e1.left_content, e2.left_content);
        assert_eq!(e1.right_content, e2.right_content);
        assert_eq!(e1.left_path, e2.left_path);
        assert_eq!(e1.right_path, e2.right_path);
    }
}

#[test]
fn swapping_sides_mirrors_report() {
    let ign = vec!["node_modules".to_string()];
    let r1 = compare(&sample_left(), "/l", &sample_right(), "/r", &ign);
    let r2 = compare(&sample_right(), "/r", &sample_left(), "/l", &ign);
    assert_eq!(r1.total, r2.total);
    assert_eq!(r1.identical, r2.identical);
    assert_eq!(r1.different, r2.different);
    assert_eq!(r1.only_left, r2.only_right);
    assert_eq!(r1.only_right, r2.only_left);
    assert_eq!(r1.ignored_dirs, r2.ignored_dirs);
    for (e1, e2) in r1.entries.iter().zip(r2.entries.iter()) {
        assert_eq!(e1.rel_path, e2.rel_path);
        assert_eq!(e1.left_content, e2.right_content);
        assert_eq!(e1.right_content, e2.left_content);
        assert_eq!(e1.left_path, e2.right_path);
        assert_eq!(e1.right_path, e2.left_path);
    }
}

#[test]
fn identical_file_yields_exactly_one_identical_entry() {
    let ign = vec!["node_modules".to_string()];
    let left = dir(vec![
        ("keep", dir(vec![("doc.txt", file("text"))])),
        ("node_modules", dir(vec![("doc.txt", file("text"))])),
    ]);
    let right = dir(vec![
        ("keep", dir(vec![("doc.txt", file("text"))])),
        ("node_modules", empty_dir()),
    ]);
    let r = compare(&left, "/l", &right, "/r", &ign);
    let hits: Vec<_> = r.entries.iter().filter(|e| e.rel_path == "keep/doc.txt").collect();
    assert_eq!(hits.len(), 1);
    assert_eq!(hits[0].status, "identical");
}

#[test]
fn ignored_dir_contributes_nothing_and_is_listed_once() {
    let ign = vec!["node_modules".to_string()];
    let left = dir(vec![
        ("sub", dir(vec![("node_modules", dir(vec![("x.js", file("1"))]))])),
        ("app.js", file("a")),
    ]);
    let right = dir(vec![
        ("sub", dir(vec![("node_modules", dir(vec![("y.js", file("2"))]))])),
        ("app.js", file("a")),
    ]);
    let r = compare(&left, "/l", &right, "/r", &ign);
    assert_eq!(r.total, 1);
    assert!(r.entries.iter().all(|e| !e.rel_path.starts_with("sub/node_modules/")));
    let listed: Vec<_> =
        r.ignored_dirs.iter().filter(|p| p.as_str() == "sub/node_modules").collect();
    assert_eq!(listed.len(), 1);
    assert_eq!(r.ignored_dirs, vec!["sub/node_modules"]);
}

#[test]
fn scenario_prune_keeps_only_shared_file() {
    let ign = vec!["node_modules".to_string()];
    let left = dir(vec![
        ("node_modules", dir(vec![("pkg", dir(vec![("index.js", file("x"))]))])),
        ("app.js", file("hello")),
    ]);
    let right = dir(vec![("app.js", file("hello"))]);
    let r = compare(&left, "/l", &right, "/r", &ign);
    assert_eq!(r.total, 1);
    assert_eq!(r.identical, 1);
    assert_eq!(r.entries[0].rel_path, "app.js");
    assert_eq!(r.ignored_dirs, vec!["node_modules"]);
}

#[test]
fn empty_trees_give_empty_report() {
    let ign: Vec<String> = vec![];
    let r = compare(&empty_dir(), "/l", &empty_dir(), "/r", &ign);
    assert_eq!(r.total, 0);
    assert!(r.ignored_dirs.is_empty());
}

#[test]
fn file_named_like_ignore_rule_is_still_compared() {
    // ignore rules prune directories only: a file of the same name stays
    let ign = vec!["node_modules".to_string()];
    let left = dir(vec![("node_modules", file("not a dir"))]);
    let right = dir(vec![("node_modules", file("not a dir"))]);
    let r = compare(&left, "/l", &right, "/r", &ign);
    assert_eq!(r.total, 1);
    assert_eq!(r.identical, 1);
    assert!(r.ignored_dirs.is_empty());
}

#[test]
fn absolute_paths_join_root_and_relative_path() {
    let ign: Vec<String> = vec![];
    let left = dir(vec![("sub", dir(vec![("f.txt", file("v"))]))]);
    let right = dir(vec![("sub", dir(vec![("f.txt", file("v"))]))]);
    let r = compare(&left, "/tmp/a", &right, "/tmp/b", &ign);
    assert_eq!(r.entries[0].left_path, "/tmp/a/sub/f.txt");
    assert_eq!(r.entries[0].right_path, "/tmp/b/sub/f.txt");
}
