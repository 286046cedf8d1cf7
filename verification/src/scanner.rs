//! The verified scanner: walks an in-memory [`FsTree`] and produces the
//! mapping from relative path to (absolute path, content) together with
//! the list of pruned directories, exactly as [`crate::tree::scan_files`]
//! and [`crate::tree::pruned_dirs`] describe.

use vstd::prelude::*;
use crate::order::{lex_lt, lemma_lex_transitive, str_cmp};
use crate::tree::{
    abs_of, child_rel, entry_map_of, ignored_dir, lemma_child_count, lemma_count_upto_mono,
    pruned_dirs, pruned_upto, scan_files, scan_files_upto, tree_count, tree_count_upto, DirEntry,
    FileModel, FsTree, MAX_FILE_SIZE,
};

verus! {

broadcast use vstd::std_specs::vec::group_vec_axioms;

/// One scanned file: its root-relative path, its absolute path and its
/// text content.
pub struct ScanEntry {
    pub rel_path: String,
    pub abs_path: String,
    pub content: String,
}

/// Entries strictly sorted by relative path: the executable shape of a
/// mapping keyed uniquely by relative path.
pub open spec fn sorted_entries(s: Seq<ScanEntry>) -> bool {
    forall|i: int, j: int|
        0 <= i < j < s.len() ==> lex_lt(s[i].rel_path@, s[j].rel_path@)
}

/// The entry list `s` holds exactly the mapping `m` from relative path
/// to content.
pub open spec fn represents(s: Seq<ScanEntry>, m: Map<Seq<char>, Seq<char>>) -> bool {
    &&& forall|i: int|
        0 <= i < s.len() ==> m.dom().contains(#[trigger] s[i].rel_path@) && m[s[i].rel_path@]
            == s[i].content@
    &&& forall|k: Seq<char>|
        m.dom().contains(k) ==> exists|i: int| 0 <= i < s.len() && #[trigger] s[i].rel_path@ == k
}

/// Every entry's absolute path is its relative path under `root`.
pub open spec fn abs_paths_ok(s: Seq<ScanEntry>, root: Seq<char>) -> bool {
    forall|i: int|
        0 <= i < s.len() ==> #[trigger] s[i].abs_path@ == abs_of(root, s[i].rel_path@)
}

/// Whether the node is a directory.
fn is_dir(t: &FsTree) -> (b: bool)
    ensures
        b == (*t is Dir),
{
    match t {
        FsTree::Dir { .. } => true,
        FsTree::File { .. } => false,
    }
}

/// Whether one of `names` is exactly `s`.
fn contains_name(names: &Vec<String>, s: &String) -> (b: bool)
    ensures
        b == names.deep_view().contains(s@),
{
    let mut j: usize = 0;
    while j < names.len()
        invariant
            0 <= j <= names.len(),
            forall|k: int| 0 <= k < j ==> names.deep_view()[k] != s@,
        decreases names.len() - j,
    {
        if *s == names[j] {
            assert(names.deep_view()[j as int] == s@);
            return true;
        }
        j = j + 1;
    }
    false
}

/// The relative path of the child named `name` under `rel`.
fn child_rel_string(rel: &String, name: &String) -> (r: String)
    ensures
        r@ == child_rel(rel@, name@),
{
    if rel.as_str().is_empty() {
        name.clone()
    } else {
        let mut s = rel.clone();
        s.append("/");
        s.append(name.as_str());
        s
    }
}

/// The absolute path of the node at `rel` under the scan root `root`.
fn abs_path_string(root: &str, rel: &String) -> (r: String)
    ensures
        r@ == abs_of(root@, rel@),
{
    if rel.as_str().is_empty() {
        root.to_owned()
    } else {
        let mut s = root.to_owned();
        s.append("/");
        s.append(rel.as_str());
        s
    }
}

/// Finds where `key` stands in the sorted entry list: the position of
/// the entry with that relative path when there is one, else the place
/// where it belongs.
fn find_pos(v: &Vec<ScanEntry>, key: &str) -> (r: (usize, bool))
    requires
        sorted_entries(v@),
    ensures
        r.0 <= v@.len(),
        forall|j: int| 0 <= j < r.0 ==> lex_lt(#[trigger] v@[j].rel_path@, key@),
        r.1 ==> r.0 < v@.len() && v@[r.0 as int].rel_path@ == key@,
        !r.1 ==> forall|j: int|
            r.0 <= j < v@.len() ==> lex_lt(key@, #[trigger] v@[j].rel_path@),
{
    let mut i: usize = 0;
    while i < v.len()
        invariant
            sorted_entries(v@),
            0 <= i <= v@.len(),
            forall|j: int| 0 <= j < i ==> lex_lt(#[trigger] v@[j].rel_path@, key@),
        decreases v@.len() - i,
    {
        let c = str_cmp(v[i].rel_path.as_str(), key);
        if c == 0 {
            return (i, true);
        }
        if c == 1 {
            proof {
                assert forall|j: int| i <= j < v@.len() implies lex_lt(
                    key@,
                    #[trigger] v@[j].rel_path@,
                ) by {
                    if j > i {
                        lemma_lex_transitive(key@, v@[i as int].rel_path@, v@[j].rel_path@);
                    }
                }
            }
            return (i, false);
        }
        i = i + 1;
    }
    (i, false)
}

/// Puts `e` at its place in the sorted entry list, replacing an entry
/// with the same relative path: the mapping gains or updates that key.
fn insert_entry(v: &mut Vec<ScanEntry>, e: ScanEntry, Ghost(m): Ghost<Map<Seq<char>, Seq<char>>>)
    requires
        sorted_entries(old(v)@),
        represents(old(v)@, m),
    ensures
        sorted_entries(final(v)@),
        represents(final(v)@, m.insert(e.rel_path@, e.content@)),
        forall|i: int|
            0 <= i < final(v)@.len() ==> (#[trigger] final(v)@[i]) == e || exists|j: int|
                0 <= j < old(v)@.len() && final(v)@[i] == old(v)@[j],
{
    let ghost m2 = m.insert(e.rel_path@, e.content@);
    let (i, found) = find_pos(v, e.rel_path.as_str());
    let ghost oldv = v@;
    if found {
        let _ = v.remove(i);
        v.insert(i, e);
        proof {
            assert(v@ =~= oldv.update(i as int, e));
            assert(oldv[i as int].rel_path@ == e.rel_path@);
            assert forall|a: int, b: int| 0 <= a < b < v@.len() implies lex_lt(
                v@[a].rel_path@,
                v@[b].rel_path@,
            ) by {
                assert(lex_lt(oldv[a].rel_path@, oldv[b].rel_path@));
                if a == i || b == i {
                    assert(v@[a].rel_path@ == oldv[a].rel_path@);
                    assert(v@[b].rel_path@ == oldv[b].rel_path@);
                }
            }
            assert forall|k: Seq<char>| m2.dom().contains(k) implies exists|j: int|
                0 <= j < v@.len() && #[trigger] v@[j].rel_path@ == k by {
                if k == e.rel_path@ {
                    assert(v@[i as int].rel_path@ == k);
                } else {
                    let j = choose|j: int| 0 <= j < oldv.len() && #[trigger] oldv[j].rel_path@ == k;
                    assert(v@[j].rel_path@ == k);
                }
            }
            assert forall|j: int| 0 <= j < v@.len() implies m2.dom().contains(
                #[trigger] v@[j].rel_path@,
            ) && m2[v@[j].rel_path@] == v@[j].content@ by {
                if j != i {
                    assert(v@[j] == oldv[j]);
                    if j < i {
                        assert(lex_lt(oldv[j].rel_path@, e.rel_path@));
                    } else {
                        assert(lex_lt(oldv[i as int].rel_path@, oldv[j].rel_path@));
                    }
                    if v@[j].rel_path@ == e.rel_path@ {
                        crate::order::lemma_lex_irrefl(e.rel_path@, 0);
                        assert(false);
                    }
                }
            }
        }
    } else {
        proof {
            assert forall|j: int| 0 <= j < oldv.len() implies oldv[j].rel_path@ != e.rel_path@ by {
                if oldv[j].rel_path@ == e.rel_path@ {
                    crate::order::lemma_lex_irrefl(e.rel_path@, 0);
                    assert(false);
                }
            }
        }
        v.insert(i, e);
        proof {
            assert forall|a: int, b: int| 0 <= a < b < v@.len() implies lex_lt(
                v@[a].rel_path@,
                v@[b].rel_path@,
            ) by {
                if b < i {
                    assert(lex_lt(oldv[a].rel_path@, oldv[b].rel_path@));
                } else if a > i {
                    assert(lex_lt(oldv[a - 1].rel_path@, oldv[b - 1].rel_path@));
                } else if a < i && b == i {
                    assert(lex_lt(oldv[a].rel_path@, e.rel_path@));
                } else if a == i {
                    assert(lex_lt(e.rel_path@, oldv[b - 1].rel_path@));
                } else {
                    assert(lex_lt(oldv[a].rel_path@, oldv[b - 1].rel_path@));
                }
            }
            assert forall|k: Seq<char>| m2.dom().contains(k) implies exists|j: int|
                0 <= j < v@.len() && #[trigger] v@[j].rel_path@ == k by {
                if k == e.rel_path@ {
                    assert(v@[i as int].rel_path@ == k);
                } else {
                    let j = choose|j: int| 0 <= j < oldv.len() && #[trigger] oldv[j].rel_path@ == k;
                    if j < i {
                        assert(v@[j].rel_path@ == k);
                    } else {
                        assert(v@[j + 1].rel_path@ == k);
                    }
                }
            }
            assert forall|j: int| 0 <= j < v@.len() implies m2.dom().contains(
                #[trigger] v@[j].rel_path@,
            ) && m2[v@[j].rel_path@] == v@[j].content@ by {
                if j < i {
                    assert(v@[j] == oldv[j]);
                } else if j > i {
                    assert(v@[j] == oldv[j - 1]);
                }
            }
        }
    }
}

/// Scans the node `t`, whose own relative path is `rel`, adding what it
/// finds to the mapping `acc` and appending pruned directories to
/// `ignored`.
fn scan_into(
    t: &FsTree,
    rel: &String,
    root: &str,
    ignore_dirs: &Vec<String>,
    acc: &mut Vec<ScanEntry>,
    ignored: &mut Vec<String>,
    Ghost(m): Ghost<Map<Seq<char>, Seq<char>>>,
)
    requires
        sorted_entries(old(acc)@),
        represents(old(acc)@, m),
        abs_paths_ok(old(acc)@, root@),
    ensures
        sorted_entries(final(acc)@),
        represents(
            final(acc)@,
            m.union_prefer_right(
                entry_map_of(scan_files(*t, rel@, ignore_dirs.deep_view())),
            ),
        ),
        abs_paths_ok(final(acc)@, root@),
        final(ignored).deep_view() == old(ignored).deep_view() + pruned_dirs(
            *t,
            rel@,
            ignore_dirs.deep_view(),
        ),
    decreases tree_count(*t),
{
    let ghost ign = ignore_dirs.deep_view();
    match t {
        FsTree::File { size, content } => {
            proof {
                crate::tree::lemma_entry_map_empty();
            }
            if *size <= MAX_FILE_SIZE {
                if let Some(c) = content {
                    let e = ScanEntry {
                        rel_path: rel.clone(),
                        abs_path: abs_path_string(root, rel),
                        content: c.clone(),
                    };
                    let ghost files = scan_files(*t, rel@, ign);
                    proof {
                        assert(files =~= seq![FileModel { rel: rel@, content: c@ }]);
                        crate::tree::lemma_entry_map_singleton(
                            FileModel { rel: rel@, content: c@ },
                        );
                        assert(m.union_prefer_right(entry_map_of(files)) =~= m.insert(rel@, c@));
                    }
                    insert_entry(acc, e, Ghost(m));
                } else {
                    proof {
                        assert(scan_files(*t, rel@, ign) =~= Seq::<FileModel>::empty());
                        assert(m.union_prefer_right(Map::empty()) =~= m);
                    }
                }
            } else {
                proof {
                    assert(scan_files(*t, rel@, ign) =~= Seq::<FileModel>::empty());
                    assert(m.union_prefer_right(Map::empty()) =~= m);
                }
            }
            proof {
                assert(ignored.deep_view() =~= old(ignored).deep_view() + pruned_dirs(
                    *t,
                    rel@,
                    ign,
                ));
            }
        },
        FsTree::Dir { entries } => {
            let ghost ign0 = ignored.deep_view();
            let n = entries.len();
            let mut i: usize = 0;
            while i < n
                invariant
                    *t == (FsTree::Dir { entries: *entries }),
                    n == entries@.len(),
                    0 <= i <= n,
                    sorted_entries(acc@),
                    abs_paths_ok(acc@, root@),
                    represents(
                        acc@,
                        m.union_prefer_right(
                            entry_map_of(scan_files_upto(*entries, i as int, rel@, ign)),
                        ),
                    ),
                    ignored.deep_view() == ign0 + pruned_upto(*entries, i as int, rel@, ign),
                    ign == ignore_dirs.deep_view(),
                decreases n - i,
            {
                let e = &entries[i];
                let child_is_dir = is_dir(&e.node);
                let matched = contains_name(ignore_dirs, &e.name);
                let crel = child_rel_string(rel, &e.name);
                let ghost files_i = scan_files_upto(*entries, i as int, rel@, ign);
                let ghost pruned_i = pruned_upto(*entries, i as int, rel@, ign);
                if child_is_dir && matched {
                    let ghost dv0 = ignored.deep_view();
                    let ghost crel_view = crel@;
                    ignored.push(crel);
                    proof {
                        assert(ignored_dir(entries@[i as int], ign));
                        assert(scan_files_upto(*entries, i as int + 1, rel@, ign) =~= files_i);
                        assert(pruned_upto(*entries, i as int + 1, rel@, ign) =~= pruned_i + seq![
                            child_rel(rel@, entries@[i as int].name@),
                        ]);
                        assert(ignored.deep_view() =~= dv0.push(crel_view));
                        assert(ignored.deep_view() =~= ign0 + pruned_upto(
                            *entries,
                            i as int + 1,
                            rel@,
                            ign,
                        ));
                    }
                } else {
                    proof {
                        assert(*t == FsTree::Dir { entries: *entries });
                        assert(tree_count(*t) == 1 + tree_count_upto(
                            *entries,
                            entries@.len() as int,
                        ));
                        lemma_child_count(*entries, i as int, i as int + 1);
                        lemma_count_upto_mono(*entries, i as int + 1, entries@.len() as int);
                        assert(tree_count(entries@[i as int].node) < tree_count(*t));
                        assert(!ignored_dir(entries@[i as int], ign));
                    }
                    let ghost m_cur = m.union_prefer_right(entry_map_of(files_i));
                    scan_into(&e.node, &crel, root, ignore_dirs, acc, ignored, Ghost(m_cur));
                    proof {
                        let child_files = scan_files(
                            entries@[i as int].node,
                            child_rel(rel@, entries@[i as int].name@),
                            ign,
                        );
                        crate::tree::lemma_entry_map_concat(files_i, child_files);
                        assert(scan_files_upto(*entries, i as int + 1, rel@, ign) =~= files_i
                            + child_files);
                        assert(m_cur.union_prefer_right(entry_map_of(child_files))
                            =~= m.union_prefer_right(
                            entry_map_of(scan_files_upto(*entries, i as int + 1, rel@, ign)),
                        ));
                        let child_pruned = pruned_dirs(
                            entries@[i as int].node,
                            child_rel(rel@, entries@[i as int].name@),
                            ign,
                        );
                        assert(pruned_upto(*entries, i as int + 1, rel@, ign) =~= pruned_i
                            + child_pruned);
                        assert(ignored.deep_view() =~= ign0 + pruned_upto(
                            *entries,
                            i as int + 1,
                            rel@,
                            ign,
                        ));
                    }
                }
                i = i + 1;
            }
            proof {
                assert(scan_files(*t, rel@, ign) == scan_files_upto(
                    *entries,
                    entries@.len() as int,
                    rel@,
                    ign,
                ));
                assert(pruned_dirs(*t, rel@, ign) == pruned_upto(
                    *entries,
                    entries@.len() as int,
                    rel@,
                    ign,
                ));
            }
        },
    }
}

/// Scans the tree rooted at `tree`, which stands for the directory at
/// `root`: returns the scanned files as a mapping from relative path to
/// (absolute path, content), sorted and keyed uniquely by relative
/// path, and the relative paths of the pruned directories in traversal
/// order.
pub fn scan_dir(tree: &FsTree, root: &str, ignore_dirs: &Vec<String>) -> (res: (
    Vec<ScanEntry>,
    Vec<String>,
))
    ensures
        sorted_entries(res.0@),
        represents(res.0@, entry_map_of(scan_files(*tree, Seq::empty(), ignore_dirs.deep_view()))),
        abs_paths_ok(res.0@, root@),
        res.1.deep_view() == pruned_dirs(*tree, Seq::empty(), ignore_dirs.deep_view()),
{
    let mut acc: Vec<ScanEntry> = Vec::new();
    let mut ignored: Vec<String> = Vec::new();
    let empty_rel = String::new();
    proof {
        assert(represents(acc@, Map::empty()));
    }
    scan_into(
        tree,
        &empty_rel,
        root,
        ignore_dirs,
        &mut acc,
        &mut ignored,
        Ghost(Map::empty()),
    );
    proof {
        let em = entry_map_of(scan_files(*tree, Seq::empty(), ignore_dirs.deep_view()));
        assert(Map::<Seq<char>, Seq<char>>::empty().union_prefer_right(em) =~= em);
        assert(ignored.deep_view() =~= pruned_dirs(
            *tree,
            Seq::empty(),
            ignore_dirs.deep_view(),
        ));
    }
    (acc, ignored)
}

} // verus!
