//! In-memory model of a directory tree, and the specification of what a
//! scan of such a tree yields.
//!
//! A host that walks a real filesystem converts what it finds into
//! [`FsTree`] and hands it to the library; the scanning and comparison
//! logic itself then works on plain values and is verified.

use vstd::prelude::*;

verus! {

broadcast use vstd::std_specs::vec::group_vec_axioms;

/// Largest file size, in bytes, that a scan will read; larger files are
/// silently excluded from the report.
pub const MAX_FILE_SIZE: u64 = 10485760;

/// One node of a file tree: a regular file with its size in bytes and,
/// when its bytes decode as text, its content; or a directory with its
/// named children.
pub enum FsTree {
    /// A regular file. `content` is `None` when the file could not be
    /// read or its bytes do not decode as text.
    File { size: u64, content: Option<String> },
    /// A directory and its children.
    Dir { entries: Vec<DirEntry> },
}

/// A named child of a directory.
pub struct DirEntry {
    pub name: String,
    pub node: FsTree,
}

/// Number of nodes in the tree; the measure that recursion over a tree
/// decreases.
pub open spec fn tree_count(t: FsTree) -> nat
    decreases t, 0int,
{
    match t {
        FsTree::File { .. } => 1,
        FsTree::Dir { entries } => 1 + tree_count_upto(entries, entries.len() as int),
    }
}

/// Nodes in the subtrees of the first `n` children, counting each child
/// once more so that a child's count is strictly below its parent's.
pub open spec fn tree_count_upto(entries: Vec<DirEntry>, n: int) -> nat
    decreases entries, n,
        via tree_count_upto_dec
{
    if n <= 0 || n > entries.len() {
        0
    } else {
        tree_count_upto(entries, n - 1) + tree_count(entries[n - 1].node) + 1
    }
}

#[via_fn]
proof fn tree_count_upto_dec(entries: Vec<DirEntry>, n: int) {
    if 0 < n <= entries.len() {
        assert(decreases_to!(entries => entries[n - 1]));
    }
}

/// The count of the first `m` children is no more than that of the
/// first `n` when `m <= n <= entries.len()`.
pub proof fn lemma_count_upto_mono(entries: Vec<DirEntry>, m: int, n: int)
    requires
        m <= n <= entries.len(),
    ensures
        tree_count_upto(entries, m) <= tree_count_upto(entries, n),
    decreases n - m,
{
    if m < n {
        lemma_count_upto_mono(entries, m, n - 1);
    }
}

/// Each child's subtree counts strictly less than the first `n`
/// children together, for any `n` past the child.
pub proof fn lemma_child_count(entries: Vec<DirEntry>, i: int, n: int)
    requires
        0 <= i < n <= entries.len(),
    ensures
        tree_count(entries[i].node) < tree_count_upto(entries, n),
    decreases n,
{
    if i < n - 1 {
        lemma_child_count(entries, i, n - 1);
    }
}

/// The relative path of a child named `name` under a node whose own
/// relative path is `rel`; the scan root itself has relative path `""`.
pub open spec fn child_rel(rel: Seq<char>, name: Seq<char>) -> Seq<char> {
    if rel.len() == 0 {
        name
    } else {
        rel + "/"@ + name
    }
}

/// The absolute path of the node whose relative path is `rel`, under a
/// scan rooted at `root`.
pub open spec fn abs_of(root: Seq<char>, rel: Seq<char>) -> Seq<char> {
    if rel.len() == 0 {
        root
    } else {
        root + "/"@ + rel
    }
}

/// A directory child whose name matches an ignore rule: the scan does
/// not descend into it. Ignore rules prune directories only; a file
/// whose name matches one is still scanned.
pub open spec fn ignored_dir(e: DirEntry, ign: Seq<Seq<char>>) -> bool {
    e.node is Dir && ign.contains(e.name@)
}

/// What the scan keeps: one record per regular file that is reached
/// without entering an ignored directory, is within the size ceiling,
/// and has text content.
pub ghost struct FileModel {
    /// Root-relative path of the file.
    pub rel: Seq<char>,
    /// The file's text content.
    pub content: Seq<char>,
}

/// The files a scan of the node `t` (whose own relative path is `rel`)
/// yields, in traversal order.
pub open spec fn scan_files(t: FsTree, rel: Seq<char>, ign: Seq<Seq<char>>) -> Seq<FileModel>
    decreases tree_count(t), 0int,
{
    match t {
        FsTree::File { size, content } => match content {
            Some(c) => if size <= MAX_FILE_SIZE {
                seq![FileModel { rel, content: c@ }]
            } else {
                Seq::empty()
            },
            None => Seq::empty(),
        },
        FsTree::Dir { entries } => scan_files_upto(entries, entries.len() as int, rel, ign),
    }
}

/// The files the first `n` children of a directory at `rel` yield.
pub open spec fn scan_files_upto(
    entries: Vec<DirEntry>,
    n: int,
    rel: Seq<char>,
    ign: Seq<Seq<char>>,
) -> Seq<FileModel>
    decreases tree_count_upto(entries, entries.len() as int), n,
        via scan_files_upto_dec
{
    if n <= 0 || n > entries.len() {
        Seq::empty()
    } else {
        let e = entries[n - 1];
        scan_files_upto(entries, n - 1, rel, ign) + if ignored_dir(e, ign) {
            Seq::empty()
        } else {
            scan_files(e.node, child_rel(rel, e.name@), ign)
        }
    }
}

#[via_fn]
proof fn scan_files_upto_dec(entries: Vec<DirEntry>, n: int, rel: Seq<char>, ign: Seq<Seq<char>>) {
    if 0 < n <= entries.len() {
        lemma_child_count(entries, n - 1, n);
        lemma_count_upto_mono(entries, n, entries.len() as int);
    }
}

/// The relative paths of the directories a scan of node `t` prunes
/// because their name matches an ignore rule, in traversal order; each
/// pruned directory is recorded at the point of pruning and never
/// entered.
pub open spec fn pruned_dirs(t: FsTree, rel: Seq<char>, ign: Seq<Seq<char>>) -> Seq<Seq<char>>
    decreases tree_count(t), 0int,
{
    match t {
        FsTree::File { .. } => Seq::empty(),
        FsTree::Dir { entries } => pruned_upto(entries, entries.len() as int, rel, ign),
    }
}

/// The pruned directories among the first `n` children of a directory
/// at `rel`.
pub open spec fn pruned_upto(
    entries: Vec<DirEntry>,
    n: int,
    rel: Seq<char>,
    ign: Seq<Seq<char>>,
) -> Seq<Seq<char>>
    decreases tree_count_upto(entries, entries.len() as int), n,
        via pruned_upto_dec
{
    if n <= 0 || n > entries.len() {
        Seq::empty()
    } else {
        let e = entries[n - 1];
        pruned_upto(entries, n - 1, rel, ign) + if ignored_dir(e, ign) {
            seq![child_rel(rel, e.name@)]
        } else {
            pruned_dirs(e.node, child_rel(rel, e.name@), ign)
        }
    }
}

#[via_fn]
proof fn pruned_upto_dec(entries: Vec<DirEntry>, n: int, rel: Seq<char>, ign: Seq<Seq<char>>) {
    if 0 < n <= entries.len() {
        lemma_child_count(entries, n - 1, n);
        lemma_count_upto_mono(entries, n, entries.len() as int);
    }
}

/// A name a directory entry can carry: nonempty and free of the
/// separator.
pub open spec fn valid_name(n: Seq<char>) -> bool {
    n.len() > 0 && !n.contains('/')
}

/// A well-formed tree, as a filesystem hands one out: within each
/// directory the names are valid and pairwise distinct.
pub open spec fn wf_tree(t: FsTree) -> bool
    decreases tree_count(t), 0int,
{
    match t {
        FsTree::File { .. } => true,
        FsTree::Dir { entries } => {
            &&& forall|i: int| 0 <= i < entries.len() ==> valid_name(#[trigger] entries[i].name@)
            &&& forall|i: int, j: int|
                0 <= i < j < entries.len() ==> entries[i].name@ != entries[j].name@
            &&& wf_children(entries, entries.len() as int)
        },
    }
}

/// The first `n` children are well-formed subtrees.
pub open spec fn wf_children(entries: Vec<DirEntry>, n: int) -> bool
    decreases tree_count_upto(entries, entries.len() as int), n,
        via wf_children_dec
{
    if n <= 0 || n > entries.len() {
        true
    } else {
        wf_children(entries, n - 1) && wf_tree(entries[n - 1].node)
    }
}

#[via_fn]
proof fn wf_children_dec(entries: Vec<DirEntry>, n: int) {
    if 0 < n <= entries.len() {
        lemma_child_count(entries, n - 1, n);
        lemma_count_upto_mono(entries, n, entries.len() as int);
    }
}

/// Whether some child carries the name.
pub open spec fn has_child(entries: Vec<DirEntry>, name: Seq<char>) -> bool {
    exists|i: int| 0 <= i < entries.len() && (#[trigger] entries[i].name@) == name
}

/// The position of the child carrying the name.
pub open spec fn child_index(entries: Vec<DirEntry>, name: Seq<char>) -> int {
    choose|i: int| 0 <= i < entries.len() && (#[trigger] entries[i].name@) == name
}

/// Looks a segment path up in the tree: the node reached by following
/// one name per level, when every step exists.
pub open spec fn node_at(t: FsTree, segs: Seq<Seq<char>>) -> Option<FsTree>
    decreases segs.len(),
{
    if segs.len() == 0 {
        Some(t)
    } else {
        match t {
            FsTree::File { .. } => None,
            FsTree::Dir { entries } => {
                if has_child(entries, segs[0]) {
                    node_at(entries[child_index(entries, segs[0])].node, segs.drop_first())
                } else {
                    None
                }
            },
        }
    }
}

/// There is a readable file of content `c` at the segment path: it is
/// a regular file, within the size ceiling, and its bytes decode as
/// the text `c`.
pub open spec fn readable_file_at(t: FsTree, segs: Seq<Seq<char>>, c: Seq<char>) -> bool {
    match node_at(t, segs) {
        Some(f) => match f {
            FsTree::File { size, content } => match content {
                Some(s) => size <= MAX_FILE_SIZE && s@ == c,
                None => false,
            },
            FsTree::Dir { .. } => false,
        },
        None => false,
    }
}

/// There is a directory at the segment path.
pub open spec fn dir_at(t: FsTree, segs: Seq<Seq<char>>) -> bool {
    match node_at(t, segs) {
        Some(f) => f is Dir,
        None => false,
    }
}

/// The relative path of the node reached from `rel` by the segment
/// path `segs`: one separator between consecutive names.
pub open spec fn rel_join(rel: Seq<char>, segs: Seq<Seq<char>>) -> Seq<char>
    decreases segs.len(),
{
    if segs.len() == 0 {
        rel
    } else {
        rel_join(child_rel(rel, segs[0]), segs.drop_first())
    }
}

/// `k` lies at or below the relative path `rel`: `rel` is a prefix and
/// what follows, if anything, starts with the separator. Everything
/// lies below the scan root's empty relative path.
pub open spec fn extends_path(rel: Seq<char>, k: Seq<char>) -> bool {
    if rel.len() == 0 {
        true
    } else {
        &&& k.len() >= rel.len()
        &&& k.subrange(0, rel.len() as int) == rel
        &&& (k.len() == rel.len() || k[rel.len() as int] == '/')
    }
}

/// The mapping from relative path to content that a list of scanned
/// files denotes; a later file with the same relative path wins.
pub open spec fn entry_map_of(s: Seq<FileModel>) -> Map<Seq<char>, Seq<char>>
    decreases s.len(),
{
    if s.len() == 0 {
        Map::empty()
    } else {
        entry_map_of(s.drop_last()).insert(s.last().rel, s.last().content)
    }
}

/// The empty file list denotes the empty mapping.
pub proof fn lemma_entry_map_empty()
    ensures
        entry_map_of(Seq::<FileModel>::empty()) == Map::<Seq<char>, Seq<char>>::empty(),
{
}

/// A single file denotes a single-key mapping.
pub proof fn lemma_entry_map_singleton(f: FileModel)
    ensures
        entry_map_of(seq![f]) == Map::<Seq<char>, Seq<char>>::empty().insert(f.rel, f.content),
{
    reveal_with_fuel(entry_map_of, 3);
    let s = seq![f];
    assert(s.drop_last() =~= Seq::<FileModel>::empty());
    assert(s.last() == f);
    assert(entry_map_of(s) == entry_map_of(s.drop_last()).insert(f.rel, f.content));
}

/// Scanning one list after another denotes the union of their
/// mappings, the later list winning on shared keys.
pub proof fn lemma_entry_map_concat(s1: Seq<FileModel>, s2: Seq<FileModel>)
    ensures
        entry_map_of(s1 + s2) == entry_map_of(s1).union_prefer_right(entry_map_of(s2)),
    decreases s2.len(),
{
    if s2.len() == 0 {
        assert(s1 + s2 =~= s1);
        assert(entry_map_of(s1).union_prefer_right(Map::empty()) =~= entry_map_of(s1));
    } else {
        lemma_entry_map_concat(s1, s2.drop_last());
        assert((s1 + s2).drop_last() =~= s1 + s2.drop_last());
        assert((s1 + s2).last() == s2.last());
        assert(entry_map_of(s1).union_prefer_right(entry_map_of(s2))
            =~= entry_map_of(s1).union_prefer_right(entry_map_of(s2.drop_last())).insert(
            s2.last().rel,
            s2.last().content,
        ));
    }
}

} // verus!
