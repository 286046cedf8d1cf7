//! Facts about relative paths and what a scan holds of them: where a
//! scanned file's path lies in the tree, which keys a scan can produce,
//! and that paths of distinct children never collide.

use vstd::prelude::*;
use crate::tree::{
    child_index, child_rel, entry_map_of, extends_path, has_child, ignored_dir, lemma_child_count,
    lemma_entry_map_concat, node_at, pruned_dirs, pruned_upto, readable_file_at, rel_join,
    scan_files, scan_files_upto, tree_count, tree_count_upto, valid_name, wf_children, wf_tree,
    DirEntry, FileModel, FsTree,
};

verus! {

broadcast use vstd::std_specs::vec::group_vec_axioms;

/// Where a child's name starts inside its relative path: right after
/// `rel` and the separator, or at the front under the scan root.
pub open spec fn name_base(rel: Seq<char>) -> int {
    if rel.len() == 0 {
        0int
    } else {
        rel.len() + 1int
    }
}

/// The separator literal is the single character `/`.
proof fn lemma_slash()
    ensures
        "/"@.len() == 1,
        "/"@[0] == '/',
{
    reveal_strlit("/");
}

/// How a child's relative path is laid out: `rel`, a separator when
/// `rel` is not empty, then the name.
pub proof fn lemma_child_rel_facts(rel: Seq<char>, name: Seq<char>)
    requires
        valid_name(name),
    ensures
        child_rel(rel, name).len() == name_base(rel) + name.len(),
        forall|d: int|
            0 <= d < name.len() ==> child_rel(rel, name)[name_base(rel) + d] == name[d],
        forall|d: int| 0 <= d < rel.len() ==> child_rel(rel, name)[d] == rel[d],
        rel.len() > 0 ==> child_rel(rel, name)[rel.len() as int] == '/',
        extends_path(rel, child_rel(rel, name)),
        child_rel(rel, name).len() > rel.len(),
{
    if rel.len() == 0 {
    } else {
        lemma_slash();
        let p = child_rel(rel, name);
        assert(p =~= rel + "/"@ + name);
        assert(p.subrange(0, rel.len() as int) =~= rel);
    }
}

/// A path below a child lies below the parent too.
pub proof fn lemma_extends_trans(r: Seq<char>, k1: Seq<char>, k2: Seq<char>)
    requires
        extends_path(r, k1),
        extends_path(k1, k2),
    ensures
        extends_path(r, k2),
{
    if r.len() > 0 {
        assert(k2.subrange(0, k1.len() as int) == k1);
        assert forall|d: int| 0 <= d < r.len() implies k2[d] == r[d] by {
            assert(k2.subrange(0, k1.len() as int)[d] == k2[d]);
            assert(k1.subrange(0, r.len() as int)[d] == k1[d]);
        }
        assert(k2.subrange(0, r.len() as int) =~= r);
        if k2.len() > r.len() {
            if k1.len() == r.len() {
                assert(k1 =~= r);
            } else {
                assert(k2.subrange(0, k1.len() as int)[r.len() as int] == k2[r.len() as int]);
            }
        }
    }
}

/// Every path lies below itself.
pub proof fn lemma_extends_refl(r: Seq<char>)
    ensures
        extends_path(r, r),
{
    if r.len() > 0 {
        assert(r.subrange(0, r.len() as int) =~= r);
    }
}

/// Paths below two differently named children of one directory never
/// coincide: the first difference falls inside or right after the
/// shorter name, where one side shows the name and the other a
/// separator or nothing.
pub proof fn lemma_distinct_keys(
    rel: Seq<char>,
    n1: Seq<char>,
    n2: Seq<char>,
    k1: Seq<char>,
    k2: Seq<char>,
)
    requires
        valid_name(n1),
        valid_name(n2),
        n1 != n2,
        extends_path(child_rel(rel, n1), k1),
        extends_path(child_rel(rel, n2), k2),
    ensures
        k1 != k2,
{
    lemma_child_rel_facts(rel, n1);
    lemma_child_rel_facts(rel, n2);
    if k1 == k2 {
        let k = k1;
        let b = name_base(rel);
        let p1 = child_rel(rel, n1);
        let p2 = child_rel(rel, n2);
        assert(k.subrange(0, p1.len() as int) == p1);
        assert(k.subrange(0, p2.len() as int) == p2);
        assert forall|d: int| 0 <= d < n1.len() implies k[b + d] == n1[d] by {
            assert(k.subrange(0, p1.len() as int)[b + d] == k[b + d]);
        }
        assert forall|d: int| 0 <= d < n2.len() implies k[b + d] == n2[d] by {
            assert(k.subrange(0, p2.len() as int)[b + d] == k[b + d]);
        }
        if n1.len() == n2.len() {
            assert(n1 =~= n2);
            assert(false);
        } else if n1.len() < n2.len() {
            assert(k.len() >= p2.len());
            assert(k.len() > p1.len());
            assert(k[p1.len() as int] == '/');
            assert(k[b + n1.len()] == n2[n1.len() as int]);
            assert(n2.contains('/'));
            assert(false);
        } else {
            assert(k.len() >= p1.len());
            assert(k.len() > p2.len());
            assert(k[p2.len() as int] == '/');
            assert(k[b + n2.len()] == n1[n2.len() as int]);
            assert(n1.contains('/'));
            assert(false);
        }
    }
}

/// A key stands in the mapping of a file list exactly when some file
/// of the list carries it.
pub proof fn lemma_entry_map_dom(s: Seq<FileModel>, k: Seq<char>)
    ensures
        entry_map_of(s).dom().contains(k) <==> exists|q: int|
            0 <= q < s.len() && (#[trigger] s[q].rel) == k,
    decreases s.len(),
{
    if s.len() > 0 {
        lemma_entry_map_dom(s.drop_last(), k);
        if k == s.last().rel {
            assert(s[s.len() - 1].rel == k);
        } else {
            if exists|q: int| 0 <= q < s.len() && (#[trigger] s[q].rel) == k {
                let q = choose|q: int| 0 <= q < s.len() && (#[trigger] s[q].rel) == k;
                assert(q < s.len() - 1);
                assert(s.drop_last()[q].rel == k);
            }
            if exists|q: int| 0 <= q < s.drop_last().len() && (#[trigger] s.drop_last()[q].rel)
                == k {
                let q = choose|q: int|
                    0 <= q < s.drop_last().len() && (#[trigger] s.drop_last()[q].rel) == k;
                assert(s[q].rel == k);
            }
        }
    }
}

/// The subtree of each of the first `n` children is well-formed.
pub proof fn lemma_wf_children_elem(entries: Vec<DirEntry>, n: int, i: int)
    requires
        wf_children(entries, n),
        0 <= i < n <= entries.len(),
    ensures
        wf_tree(entries[i].node),
    decreases n,
{
    if i < n - 1 {
        lemma_wf_children_elem(entries, n - 1, i);
    }
}

/// Every file a scan of `t` yields lies at or below `t`'s own relative
/// path.
pub proof fn lemma_scan_shape(t: FsTree, rel: Seq<char>, ign: Seq<Seq<char>>)
    requires
        wf_tree(t),
    ensures
        forall|q: int|
            0 <= q < scan_files(t, rel, ign).len() ==> extends_path(
                rel,
                #[trigger] scan_files(t, rel, ign)[q].rel,
            ),
    decreases tree_count(t), 1int,
{
    match t {
        FsTree::File { .. } => {
            lemma_extends_refl(rel);
        },
        FsTree::Dir { .. } => {
            let entries = t->Dir_entries;
            assert(tree_count(t) == 1 + tree_count_upto(entries, entries.len() as int));
            lemma_scan_shape_upto(entries, entries.len() as int, rel, ign);
            assert(scan_files(t, rel, ign) == scan_files_upto(
                entries,
                entries.len() as int,
                rel,
                ign,
            ));
        },
    }
}

/// Every file the first `n` children yield lies at or below `rel`.
proof fn lemma_scan_shape_upto(entries: Vec<DirEntry>, n: int, rel: Seq<char>, ign: Seq<Seq<char>>)
    requires
        0 <= n <= entries.len(),
        forall|i: int| 0 <= i < entries.len() ==> valid_name(#[trigger] entries[i].name@),
        wf_children(entries, entries.len() as int),
    ensures
        forall|q: int|
            0 <= q < scan_files_upto(entries, n, rel, ign).len() ==> extends_path(
                rel,
                #[trigger] scan_files_upto(entries, n, rel, ign)[q].rel,
            ),
    decreases tree_count_upto(entries, entries.len() as int), 0int, n,
{
    if n > 0 {
        lemma_scan_shape_upto(entries, n - 1, rel, ign);
        let e = entries[n - 1];
        let prev = scan_files_upto(entries, n - 1, rel, ign);
        let found = if ignored_dir(e, ign) {
            Seq::<FileModel>::empty()
        } else {
            scan_files(e.node, child_rel(rel, e.name@), ign)
        };
        if !ignored_dir(e, ign) {
            lemma_child_count(entries, n - 1, entries.len() as int);
            lemma_wf_children_elem(entries, entries.len() as int, n - 1);
            lemma_scan_shape(e.node, child_rel(rel, e.name@), ign);
            lemma_child_rel_facts(rel, e.name@);
            assert forall|q: int| 0 <= q < found.len() implies extends_path(
                rel,
                found[q].rel,
            ) by {
                lemma_extends_trans(rel, child_rel(rel, e.name@), found[q].rel);
            }
        }
        assert forall|q: int| 0 <= q < scan_files_upto(entries, n, rel, ign).len() implies
            extends_path(rel, #[trigger] scan_files_upto(entries, n, rel, ign)[q].rel) by {
            assert(scan_files_upto(entries, n, rel, ign) == prev + found);
            if q < prev.len() {
                assert((prev + found)[q] == prev[q]);
            } else {
                assert((prev + found)[q] == found[q - prev.len()]);
            }
        }
    }
}

/// The path reached from `r` by valid segments lies at or below `r`.
pub proof fn lemma_rel_join_extends(r: Seq<char>, segs: Seq<Seq<char>>)
    requires
        forall|q: int| 0 <= q < segs.len() ==> valid_name(#[trigger] segs[q]),
    ensures
        extends_path(r, rel_join(r, segs)),
        segs.len() > 0 ==> rel_join(r, segs).len() > r.len(),
    decreases segs.len(),
{
    if segs.len() == 0 {
        lemma_extends_refl(r);
    } else {
        lemma_child_rel_facts(r, segs[0]);
        let r2 = child_rel(r, segs[0]);
        assert forall|q: int| 0 <= q < segs.drop_first().len() implies valid_name(
            #[trigger] segs.drop_first()[q],
        ) by {
            assert(segs.drop_first()[q] == segs[q + 1]);
        }
        lemma_rel_join_extends(r2, segs.drop_first());
        lemma_extends_trans(r, r2, rel_join(r2, segs.drop_first()));
        if extends_path(r2, rel_join(r2, segs.drop_first())) && r2.len() > 0 {
            assert(rel_join(r2, segs.drop_first()).len() >= r2.len());
        }
    }
}

/// A key of a child's mapping that no later child yields survives into
/// the mapping of the first `n` children.
proof fn lemma_upto_map_from_child(
    entries: Vec<DirEntry>,
    i: int,
    n: int,
    rel: Seq<char>,
    ign: Seq<Seq<char>>,
    k: Seq<char>,
    c: Seq<char>,
)
    requires
        0 <= i < n <= entries.len(),
        !ignored_dir(entries[i], ign),
        entry_map_of(
            scan_files(entries[i].node, child_rel(rel, entries[i].name@), ign),
        ).dom().contains(k),
        entry_map_of(scan_files(entries[i].node, child_rel(rel, entries[i].name@), ign))[k] == c,
        forall|j: int|
            i < j < n ==> (ignored_dir(#[trigger] entries[j], ign) || !entry_map_of(
                scan_files(entries[j].node, child_rel(rel, entries[j].name@), ign),
            ).dom().contains(k)),
    ensures
        entry_map_of(scan_files_upto(entries, n, rel, ign)).dom().contains(k),
        entry_map_of(scan_files_upto(entries, n, rel, ign))[k] == c,
    decreases n,
{
    let prev = scan_files_upto(entries, n - 1, rel, ign);
    let e = entries[n - 1];
    let last = if ignored_dir(e, ign) {
        Seq::<FileModel>::empty()
    } else {
        scan_files(e.node, child_rel(rel, e.name@), ign)
    };
    lemma_entry_map_concat(prev, last);
    assert(scan_files_upto(entries, n, rel, ign) == prev + last);
    if n == i + 1 {
    } else {
        lemma_upto_map_from_child(entries, i, n - 1, rel, ign, k, c);
        assert(!entry_map_of(last).dom().contains(k));
    }
}

/// A key that no child among the first `n` yields is absent from their
/// mapping.
proof fn lemma_upto_map_absent(
    entries: Vec<DirEntry>,
    n: int,
    rel: Seq<char>,
    ign: Seq<Seq<char>>,
    k: Seq<char>,
)
    requires
        0 <= n <= entries.len(),
        forall|j: int|
            0 <= j < n ==> (ignored_dir(#[trigger] entries[j], ign) || !entry_map_of(
                scan_files(entries[j].node, child_rel(rel, entries[j].name@), ign),
            ).dom().contains(k)),
    ensures
        !entry_map_of(scan_files_upto(entries, n, rel, ign)).dom().contains(k),
    decreases n,
{
    if n > 0 {
        lemma_upto_map_absent(entries, n - 1, rel, ign, k);
        let prev = scan_files_upto(entries, n - 1, rel, ign);
        let e = entries[n - 1];
        let last = if ignored_dir(e, ign) {
            Seq::<FileModel>::empty()
        } else {
            scan_files(e.node, child_rel(rel, e.name@), ign)
        };
        lemma_entry_map_concat(prev, last);
        assert(scan_files_upto(entries, n, rel, ign) == prev + last);
        assert(!entry_map_of(last).dom().contains(k));
    }
}

/// A readable file that no ignore rule hides is scanned: its relative
/// path stands in the scan's mapping, bound to its content.
pub proof fn lemma_scan_complete(
    t: FsTree,
    rel: Seq<char>,
    ign: Seq<Seq<char>>,
    segs: Seq<Seq<char>>,
    c: Seq<char>,
)
    requires
        wf_tree(t),
        readable_file_at(t, segs, c),
        forall|q: int| 0 <= q < segs.len() - 1 ==> !ign.contains(#[trigger] segs[q]),
    ensures
        entry_map_of(scan_files(t, rel, ign)).dom().contains(rel_join(rel, segs)),
        entry_map_of(scan_files(t, rel, ign))[rel_join(rel, segs)] == c,
    decreases segs.len(),
{
    if segs.len() == 0 {
        match t {
            FsTree::File { size, content } => {
                let f = FileModel { rel, content: c };
                crate::tree::lemma_entry_map_singleton(f);
                assert(scan_files(t, rel, ign) =~= seq![f]);
            },
            FsTree::Dir { .. } => {
                assert(false);
            },
        }
    } else {
        assert(t is Dir);
        let entries = t->Dir_entries;
        assert(has_child(entries, segs[0]));
        let i = child_index(entries, segs[0]);
        assert(0 <= i < entries.len() && entries[i].name@ == segs[0]);
        let child = entries[i].node;
        let crel = child_rel(rel, segs[0]);
        let rest = segs.drop_first();
        assert(node_at(t, segs) == node_at(child, rest));
        assert(readable_file_at(child, rest, c));
        lemma_wf_children_elem(entries, entries.len() as int, i);
        if segs.len() == 1 {
            assert(node_at(child, rest) == Some(child));
            assert(child is File);
            assert(!ignored_dir(entries[i], ign));
        } else {
            assert(!ign.contains(segs[0]));
            assert(!ignored_dir(entries[i], ign));
        }
        assert forall|q: int| 0 <= q < rest.len() - 1 implies !ign.contains(
            #[trigger] rest[q],
        ) by {
            assert(rest[q] == segs[q + 1]);
        }
        lemma_scan_complete(child, crel, ign, rest, c);
        let k = rel_join(rel, segs);
        assert(k == rel_join(crel, rest));
        lemma_entry_map_dom(scan_files(child, crel, ign), k);
        lemma_scan_shape(child, crel, ign);
        assert(extends_path(crel, k)) by {
            let q = choose|q: int|
                0 <= q < scan_files(child, crel, ign).len() && (#[trigger] scan_files(
                    child,
                    crel,
                    ign,
                )[q].rel) == k;
            assert(extends_path(crel, scan_files(child, crel, ign)[q].rel));
        }
        assert forall|j: int| i < j < entries.len() implies (ignored_dir(
            #[trigger] entries[j],
            ign,
        ) || !entry_map_of(
            scan_files(entries[j].node, child_rel(rel, entries[j].name@), ign),
        ).dom().contains(k)) by {
            if !ignored_dir(entries[j], ign) {
                let jfiles = scan_files(entries[j].node, child_rel(rel, entries[j].name@), ign);
                if entry_map_of(jfiles).dom().contains(k) {
                    lemma_entry_map_dom(jfiles, k);
                    lemma_wf_children_elem(entries, entries.len() as int, j);
                    lemma_scan_shape(entries[j].node, child_rel(rel, entries[j].name@), ign);
                    let q = choose|q: int|
                        0 <= q < jfiles.len() && (#[trigger] jfiles[q].rel) == k;
                    assert(extends_path(child_rel(rel, entries[j].name@), k));
                    lemma_distinct_keys(rel, segs[0], entries[j].name@, k, k);
                    assert(false);
                }
            }
        }
        lemma_upto_map_from_child(entries, i, entries.len() as int, rel, ign, k, c);
        assert(scan_files(t, rel, ign) == scan_files_upto(
            entries,
            entries.len() as int,
            rel,
            ign,
        ));
    }
}

/// A path that runs through a directory whose name matches an ignore
/// rule never stands in the scan's mapping: nothing strictly inside a
/// pruned directory is scanned.
pub proof fn lemma_scan_absent(t: FsTree, rel: Seq<char>, ign: Seq<Seq<char>>, segs: Seq<Seq<char>>)
    requires
        wf_tree(t),
        segs.len() >= 2,
        forall|q: int| 0 <= q < segs.len() ==> valid_name(#[trigger] segs[q]),
        exists|q: int| 0 <= q < segs.len() - 1 && ign.contains(#[trigger] segs[q]),
    ensures
        !entry_map_of(scan_files(t, rel, ign)).dom().contains(rel_join(rel, segs)),
    decreases segs.len(),
{
    let k = rel_join(rel, segs);
    let crel = child_rel(rel, segs[0]);
    let rest = segs.drop_first();
    assert forall|q: int| 0 <= q < rest.len() implies valid_name(#[trigger] rest[q]) by {
        assert(rest[q] == segs[q + 1]);
    }
    assert(k == rel_join(crel, rest));
    lemma_rel_join_extends(crel, rest);
    assert(extends_path(crel, k));
    lemma_child_rel_facts(rel, segs[0]);
    match t {
        FsTree::File { .. } => {
            assert(k.len() >= crel.len());
            assert(crel.len() > rel.len());
            lemma_entry_map_dom(scan_files(t, rel, ign), k);
        },
        FsTree::Dir { .. } => {
            let entries = t->Dir_entries;
            assert forall|j: int| 0 <= j < entries.len() implies (ignored_dir(
                #[trigger] entries[j],
                ign,
            ) || !entry_map_of(
                scan_files(entries[j].node, child_rel(rel, entries[j].name@), ign),
            ).dom().contains(k)) by {
                if !ignored_dir(entries[j], ign) {
                    let jfiles = scan_files(
                        entries[j].node,
                        child_rel(rel, entries[j].name@),
                        ign,
                    );
                    if entry_map_of(jfiles).dom().contains(k) {
                        lemma_entry_map_dom(jfiles, k);
                        lemma_wf_children_elem(entries, entries.len() as int, j);
                        lemma_scan_shape(entries[j].node, child_rel(rel, entries[j].name@), ign);
                        let q = choose|q: int|
                            0 <= q < jfiles.len() && (#[trigger] jfiles[q].rel) == k;
                        assert(extends_path(child_rel(rel, entries[j].name@), k));
                        if entries[j].name@ != segs[0] {
                            lemma_distinct_keys(rel, segs[0], entries[j].name@, k, k);
                            assert(false);
                        } else {
                            match entries[j].node {
                                FsTree::File { .. } => {
                                    // a file contributes only its own path, which
                                    // is shorter than anything strictly inside it
                                    assert(jfiles[q].rel == child_rel(
                                        rel,
                                        entries[j].name@,
                                    ));
                                    lemma_child_rel_facts(crel, rest[0]);
                                    lemma_rel_join_extends(child_rel(crel, rest[0]), rest.drop_first());
                                    assert forall|d: int| 0 <= d < rest.drop_first().len() implies
                                        valid_name(#[trigger] rest.drop_first()[d]) by {
                                        assert(rest.drop_first()[d] == rest[d + 1]);
                                    }
                                    assert(k.len() > crel.len());
                                    assert(false);
                                },
                                FsTree::Dir { .. } => {
                                    // the matching child is a directory that was
                                    // not pruned, so the ignored name lies deeper
                                    assert(!ign.contains(segs[0]));
                                    let qi = choose|qi: int|
                                        0 <= qi < segs.len() - 1 && ign.contains(
                                            #[trigger] segs[qi],
                                        );
                                    assert(qi >= 1);
                                    assert(rest[qi - 1] == segs[qi]);
                                    assert(exists|q2: int|
                                        0 <= q2 < rest.len() - 1 && ign.contains(
                                            #[trigger] rest[q2],
                                        ));
                                    lemma_scan_absent(entries[j].node, crel, ign, rest);
                                    assert(false);
                                },
                            }
                        }
                    }
                }
            }
            lemma_upto_map_absent(entries, entries.len() as int, rel, ign, k);
            assert(scan_files(t, rel, ign) == scan_files_upto(
                entries,
                entries.len() as int,
                rel,
                ign,
            ));
        },
    }
}

/// What one child records as pruned stands in the record of the first
/// `n` children.
proof fn lemma_pruned_upto_contains(
    entries: Vec<DirEntry>,
    i: int,
    n: int,
    rel: Seq<char>,
    ign: Seq<Seq<char>>,
    p: Seq<char>,
)
    requires
        0 <= i < n <= entries.len(),
        (if ignored_dir(entries[i], ign) {
            seq![child_rel(rel, entries[i].name@)]
        } else {
            pruned_dirs(entries[i].node, child_rel(rel, entries[i].name@), ign)
        }).contains(p),
    ensures
        pruned_upto(entries, n, rel, ign).contains(p),
    decreases n,
{
    let prev = pruned_upto(entries, n - 1, rel, ign);
    let e = entries[n - 1];
    let last = if ignored_dir(e, ign) {
        seq![child_rel(rel, e.name@)]
    } else {
        pruned_dirs(e.node, child_rel(rel, e.name@), ign)
    };
    assert(pruned_upto(entries, n, rel, ign) == prev + last);
    if n == i + 1 {
        let q = choose|q: int| 0 <= q < last.len() && last[q] == p;
        assert((prev + last)[prev.len() + q] == p);
    } else {
        lemma_pruned_upto_contains(entries, i, n - 1, rel, ign, p);
        let q = choose|q: int| 0 <= q < prev.len() && prev[q] == p;
        assert((prev + last)[q] == p);
    }
}

/// A directory whose name matches an ignore rule, reached without
/// passing any other ignored name, is recorded as pruned.
pub proof fn lemma_pruned_complete(
    t: FsTree,
    rel: Seq<char>,
    ign: Seq<Seq<char>>,
    segs: Seq<Seq<char>>,
)
    requires
        wf_tree(t),
        segs.len() >= 1,
        crate::tree::dir_at(t, segs),
        ign.contains(segs[segs.len() - 1]),
        forall|q: int| 0 <= q < segs.len() - 1 ==> !ign.contains(#[trigger] segs[q]),
    ensures
        pruned_dirs(t, rel, ign).contains(rel_join(rel, segs)),
    decreases segs.len(),
{
    assert(t is Dir);
    let entries = t->Dir_entries;
    assert(has_child(entries, segs[0]));
    let i = child_index(entries, segs[0]);
    assert(0 <= i < entries.len() && entries[i].name@ == segs[0]);
    let child = entries[i].node;
    let crel = child_rel(rel, segs[0]);
    let rest = segs.drop_first();
    assert(node_at(t, segs) == node_at(child, rest));
    if segs.len() == 1 {
        assert(node_at(child, rest) == Some(child));
        assert(child is Dir);
        assert(ign.contains(entries[i].name@));
        assert(ignored_dir(entries[i], ign));
        assert(rest.len() == 0);
        assert(rel_join(crel, rest) == crel);
        assert(rel_join(rel, segs) == crel);
        assert(seq![crel].contains(crel)) by {
            assert(seq![crel][0] == crel);
        }
        lemma_pruned_upto_contains(entries, i, entries.len() as int, rel, ign, crel);
    } else {
        assert(!ign.contains(segs[0]));
        assert(!ignored_dir(entries[i], ign));
        lemma_wf_children_elem(entries, entries.len() as int, i);
        assert(crate::tree::dir_at(child, rest));
        assert(rest[rest.len() - 1] == segs[segs.len() - 1]);
        assert forall|q: int| 0 <= q < rest.len() - 1 implies !ign.contains(
            #[trigger] rest[q],
        ) by {
            assert(rest[q] == segs[q + 1]);
        }
        lemma_pruned_complete(child, crel, ign, rest);
        assert(rel_join(rel, segs) == rel_join(crel, rest));
        lemma_pruned_upto_contains(entries, i, entries.len() as int, rel, ign, rel_join(crel, rest));
    }
    assert(pruned_dirs(t, rel, ign) == pruned_upto(entries, entries.len() as int, rel, ign));
}

} // verus!
