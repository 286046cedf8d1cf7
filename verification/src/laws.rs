//! Laws of the comparison. A report is determined by what was scanned,
//! so repeating a comparison over unchanged trees repeats the report;
//! swapping the two sides mirrors the report; a file identical on both
//! sides yields exactly one `identical` entry; and a directory an
//! ignore rule prunes hides everything inside it while standing in the
//! ignored list exactly once.

use vstd::prelude::*;
use crate::compare::{
    appears, compare_post, count_status, entry_ok, lemma_status_distinct, sorted_paths,
    sorted_report, CompareEntry, CompareResult,
};
use crate::order::{lemma_lex_asymmetric, lemma_lex_irrefl, lex_lt};
use crate::paths::{lemma_pruned_complete, lemma_scan_absent, lemma_scan_complete};
use crate::tree::{
    dir_at, entry_map_of, pruned_dirs, readable_file_at, rel_join, scan_files, valid_name,
    wf_tree, FsTree,
};

verus! {

/// Two sorted deduplicated path lists that hold the same paths are the
/// same list.
proof fn lemma_sorted_paths_equal(s1: Seq<Seq<char>>, s2: Seq<Seq<char>>)
    requires
        sorted_paths(s1),
        sorted_paths(s2),
        forall|k: Seq<char>| #[trigger] s1.contains(k) <==> #[trigger] s2.contains(k),
    ensures
        s1 == s2,
    decreases s1.len(),
{
    if s1.len() == 0 {
        if s2.len() > 0 {
            assert(s2.contains(s2[0]));
            assert(s1.contains(s2[0]));
            assert(false);
        }
        assert(s1 =~= s2);
    } else if s2.len() == 0 {
        assert(s1.contains(s1[0]));
        assert(s2.contains(s1[0]));
        assert(false);
    } else {
        assert(s1.contains(s1[0]));
        assert(s2.contains(s2[0]));
        assert(s2.contains(s1[0]));
        assert(s1.contains(s2[0]));
        let j = choose|j: int| 0 <= j < s2.len() && s2[j] == s1[0];
        let i = choose|i: int| 0 <= i < s1.len() && s1[i] == s2[0];
        if s1[0] != s2[0] {
            assert(j != 0 && i != 0);
            assert(lex_lt(s2[0], s2[j]));
            assert(lex_lt(s1[0], s1[i]));
            lemma_lex_asymmetric(s1[0], s2[0]);
            assert(false);
        }
        let t1 = s1.drop_first();
        let t2 = s2.drop_first();
        assert forall|k: Seq<char>| #[trigger] t1.contains(k) implies t2.contains(k) by {
            let a = choose|a: int| 0 <= a < t1.len() && t1[a] == k;
            assert(s1[a + 1] == k);
            assert(s1.contains(k));
            assert(s2.contains(k));
            let b = choose|b: int| 0 <= b < s2.len() && s2[b] == k;
            if b == 0 {
                assert(lex_lt(s1[0], s1[a + 1]));
                lemma_lex_irrefl(k, 0);
                assert(false);
            }
            assert(t2[b - 1] == k);
        }
        assert forall|k: Seq<char>| #[trigger] t2.contains(k) implies t1.contains(k) by {
            let a = choose|a: int| 0 <= a < t2.len() && t2[a] == k;
            assert(s2[a + 1] == k);
            assert(s2.contains(k));
            assert(s1.contains(k));
            let b = choose|b: int| 0 <= b < s1.len() && s1[b] == k;
            if b == 0 {
                assert(lex_lt(s2[0], s2[a + 1]));
                lemma_lex_irrefl(k, 0);
                assert(false);
            }
            assert(t1[b - 1] == k);
        }
        lemma_sorted_paths_equal(t1, t2);
        assert(s1.len() == t1.len() + 1 && s2.len() == t2.len() + 1);
        assert forall|i: int| 0 <= i < s1.len() implies s1[i] == s2[i] by {
            if i > 0 {
                assert(s1[i] == t1[i - 1]);
                assert(s2[i] == t2[i - 1]);
            }
        }
        assert(s1 =~= s2);
    }
}

/// Two sorted reports that cover the same relative paths list them at
/// the same positions.
proof fn lemma_sorted_keys_equal(s1: Seq<CompareEntry>, s2: Seq<CompareEntry>)
    requires
        sorted_report(s1),
        sorted_report(s2),
        forall|k: Seq<char>| #[trigger] appears(s1, k) <==> #[trigger] appears(s2, k),
    ensures
        s1.len() == s2.len(),
        forall|i: int| 0 <= i < s1.len() ==> s1[i].rel_path@ == s2[i].rel_path@,
    decreases s1.len(),
{
    if s1.len() == 0 {
        if s2.len() > 0 {
            assert(appears(s2, s2[0].rel_path@));
            assert(appears(s1, s2[0].rel_path@));
            let b = choose|b: int| 0 <= b < s1.len() && (#[trigger] s1[b].rel_path@) == s2[0].rel_path@;
            assert(false);
        }
    } else if s2.len() == 0 {
        assert(appears(s1, s1[0].rel_path@));
        assert(appears(s2, s1[0].rel_path@));
        let b = choose|b: int| 0 <= b < s2.len() && (#[trigger] s2[b].rel_path@) == s1[0].rel_path@;
        assert(false);
    } else {
        assert(appears(s1, s1[0].rel_path@));
        assert(appears(s2, s2[0].rel_path@));
        assert(appears(s2, s1[0].rel_path@));
        assert(appears(s1, s2[0].rel_path@));
        let j = choose|j: int| 0 <= j < s2.len() && (#[trigger] s2[j].rel_path@) == s1[0].rel_path@;
        let i = choose|i: int| 0 <= i < s1.len() && (#[trigger] s1[i].rel_path@) == s2[0].rel_path@;
        if s1[0].rel_path@ != s2[0].rel_path@ {
            assert(j != 0 && i != 0);
            assert(lex_lt(s2[0].rel_path@, s2[j].rel_path@));
            assert(lex_lt(s1[0].rel_path@, s1[i].rel_path@));
            lemma_lex_asymmetric(s1[0].rel_path@, s2[0].rel_path@);
            assert(false);
        }
        let t1 = s1.drop_first();
        let t2 = s2.drop_first();
        assert forall|k: Seq<char>| #[trigger] appears(t1, k) implies appears(t2, k) by {
            let a = choose|a: int| 0 <= a < t1.len() && (#[trigger] t1[a].rel_path@) == k;
            assert(s1[a + 1].rel_path@ == k);
            assert(appears(s1, k));
            assert(appears(s2, k));
            let b = choose|b: int| 0 <= b < s2.len() && (#[trigger] s2[b].rel_path@) == k;
            if b == 0 {
                assert(lex_lt(s1[0].rel_path@, s1[a + 1].rel_path@));
                lemma_lex_irrefl(k, 0);
                assert(false);
            }
            assert(t2[b - 1].rel_path@ == k);
        }
        assert forall|k: Seq<char>| #[trigger] appears(t2, k) implies appears(t1, k) by {
            let a = choose|a: int| 0 <= a < t2.len() && (#[trigger] t2[a].rel_path@) == k;
            assert(s2[a + 1].rel_path@ == k);
            assert(appears(s2, k));
            assert(appears(s1, k));
            let b = choose|b: int| 0 <= b < s1.len() && (#[trigger] s1[b].rel_path@) == k;
            if b == 0 {
                assert(lex_lt(s2[0].rel_path@, s2[a + 1].rel_path@));
                lemma_lex_irrefl(k, 0);
                assert(false);
            }
            assert(t1[b - 1].rel_path@ == k);
        }
        lemma_sorted_keys_equal(t1, t2);
        assert forall|i: int| 0 <= i < s1.len() implies s1[i].rel_path@ == s2[i].rel_path@ by {
            if i > 0 {
                assert(t1[i - 1].rel_path@ == t2[i - 1].rel_path@);
            }
        }
    }
}

/// Status counts agree between two reports whose entries carry the
/// statuses `st1` and `st2` at exactly the same positions.
proof fn lemma_count_status_congruent(
    s1: Seq<CompareEntry>,
    s2: Seq<CompareEntry>,
    st1: Seq<char>,
    st2: Seq<char>,
)
    requires
        s1.len() == s2.len(),
        forall|i: int|
            0 <= i < s1.len() ==> ((s1[i].status@ == st1) <==> (s2[i].status@ == st2)),
    ensures
        count_status(s1, st1) == count_status(s2, st2),
    decreases s1.len(),
{
    if s1.len() > 0 {
        assert(s1.drop_last().len() == s2.drop_last().len());
        assert forall|i: int| 0 <= i < s1.drop_last().len() implies ((s1.drop_last()[i].status@
            == st1) <==> (s2.drop_last()[i].status@ == st2)) by {
            assert(s1.drop_last()[i] == s1[i]);
            assert(s2.drop_last()[i] == s2[i]);
        }
        lemma_count_status_congruent(s1.drop_last(), s2.drop_last(), st1, st2);
        assert((s1.last().status@ == st1) <==> (s2.last().status@ == st2));
    }
}

/// A comparison is determined by what was scanned: two reports of the
/// same two mappings and pruned lists agree entry by entry, in every
/// count, and in their ignored-directory lists. Repeating a comparison
/// over unchanged trees therefore repeats the report.
pub proof fn lemma_compare_deterministic(
    r1: CompareResult,
    r2: CompareResult,
    lm: Map<Seq<char>, Seq<char>>,
    rm: Map<Seq<char>, Seq<char>>,
    lpruned: Seq<Seq<char>>,
    rpruned: Seq<Seq<char>>,
    lroot: Seq<char>,
    rroot: Seq<char>,
)
    requires
        compare_post(r1, lm, rm, lpruned, rpruned, lroot, rroot),
        compare_post(r2, lm, rm, lpruned, rpruned, lroot, rroot),
    ensures
        r1.entries@.len() == r2.entries@.len(),
        forall|i: int|
            0 <= i < r1.entries@.len() ==> {
                let e1 = #[trigger] r1.entries@[i];
                let e2 = r2.entries@[i];
                e1.rel_path@ == e2.rel_path@ && e1.status@ == e2.status@ && e1.left_content@
                    == e2.left_content@ && e1.right_content@ == e2.right_content@
                    && e1.left_path@ == e2.left_path@ && e1.right_path@ == e2.right_path@
            },
        r1.total == r2.total,
        r1.identical == r2.identical,
        r1.different == r2.different,
        r1.only_left == r2.only_left,
        r1.only_right == r2.only_right,
        r1.ignored_dirs.deep_view() == r2.ignored_dirs.deep_view(),
{
    let s1 = r1.entries@;
    let s2 = r2.entries@;
    assert forall|k: Seq<char>| #[trigger] appears(s1, k) implies appears(s2, k) by {
        let b = choose|b: int| 0 <= b < s1.len() && (#[trigger] s1[b].rel_path@) == k;
        assert(entry_ok(s1[b], lm, rm, lroot, rroot));
        assert(lm.dom().contains(k) || rm.dom().contains(k));
    }
    assert forall|k: Seq<char>| #[trigger] appears(s2, k) implies appears(s1, k) by {
        let b = choose|b: int| 0 <= b < s2.len() && (#[trigger] s2[b].rel_path@) == k;
        assert(entry_ok(s2[b], lm, rm, lroot, rroot));
        assert(lm.dom().contains(k) || rm.dom().contains(k));
    }
    lemma_sorted_keys_equal(s1, s2);
    assert forall|i: int| 0 <= i < s1.len() implies {
        let e1 = #[trigger] s1[i];
        let e2 = s2[i];
        e1.rel_path@ == e2.rel_path@ && e1.status@ == e2.status@ && e1.left_content@
            == e2.left_content@ && e1.right_content@ == e2.right_content@ && e1.left_path@
            == e2.left_path@ && e1.right_path@ == e2.right_path@
    } by {
        assert(entry_ok(s1[i], lm, rm, lroot, rroot));
        assert(entry_ok(s2[i], lm, rm, lroot, rroot));
    }
    lemma_count_status_congruent(s1, s2, "identical"@, "identical"@);
    lemma_count_status_congruent(s1, s2, "different"@, "different"@);
    lemma_count_status_congruent(s1, s2, "only_left"@, "only_left"@);
    lemma_count_status_congruent(s1, s2, "only_right"@, "only_right"@);
    assert forall|k: Seq<char>| #[trigger] r1.ignored_dirs.deep_view().contains(k)
        <==> #[trigger] r2.ignored_dirs.deep_view().contains(k) by {}
    lemma_sorted_paths_equal(r1.ignored_dirs.deep_view(), r2.ignored_dirs.deep_view());
}

/// Swapping the two sides mirrors the report: the paths and their
/// order are unchanged, `identical` and `different` entries and counts
/// stay, `only_left` and `only_right` swap, the left fields become the
/// right fields, and the ignored directories are the same.
pub proof fn lemma_compare_symmetric(
    r1: CompareResult,
    r2: CompareResult,
    lm: Map<Seq<char>, Seq<char>>,
    rm: Map<Seq<char>, Seq<char>>,
    lpruned: Seq<Seq<char>>,
    rpruned: Seq<Seq<char>>,
    lroot: Seq<char>,
    rroot: Seq<char>,
)
    requires
        compare_post(r1, lm, rm, lpruned, rpruned, lroot, rroot),
        compare_post(r2, rm, lm, rpruned, lpruned, rroot, lroot),
    ensures
        r1.entries@.len() == r2.entries@.len(),
        forall|i: int|
            0 <= i < r1.entries@.len() ==> {
                let e1 = #[trigger] r1.entries@[i];
                let e2 = r2.entries@[i];
                e1.rel_path@ == e2.rel_path@ && e1.left_content@ == e2.right_content@
                    && e1.right_content@ == e2.left_content@ && e1.left_path@ == e2.right_path@
                    && e1.right_path@ == e2.left_path@ && ((e1.status@ == "identical"@) <==> (
                e2.status@ == "identical"@)) && ((e1.status@ == "different"@) <==> (e2.status@
                    == "different"@)) && ((e1.status@ == "only_left"@) <==> (e2.status@
                    == "only_right"@)) && ((e1.status@ == "only_right"@) <==> (e2.status@
                    == "only_left"@))
            },
        r1.total == r2.total,
        r1.identical == r2.identical,
        r1.different == r2.different,
        r1.only_left == r2.only_right,
        r1.only_right == r2.only_left,
        r1.ignored_dirs.deep_view() == r2.ignored_dirs.deep_view(),
{
    let s1 = r1.entries@;
    let s2 = r2.entries@;
    lemma_status_distinct();
    assert forall|k: Seq<char>| #[trigger] appears(s1, k) implies appears(s2, k) by {
        let b = choose|b: int| 0 <= b < s1.len() && (#[trigger] s1[b].rel_path@) == k;
        assert(entry_ok(s1[b], lm, rm, lroot, rroot));
        assert(rm.dom().contains(k) || lm.dom().contains(k));
    }
    assert forall|k: Seq<char>| #[trigger] appears(s2, k) implies appears(s1, k) by {
        let b = choose|b: int| 0 <= b < s2.len() && (#[trigger] s2[b].rel_path@) == k;
        assert(entry_ok(s2[b], rm, lm, rroot, lroot));
        assert(lm.dom().contains(k) || rm.dom().contains(k));
    }
    lemma_sorted_keys_equal(s1, s2);
    assert forall|i: int| 0 <= i < s1.len() implies {
        let e1 = #[trigger] s1[i];
        let e2 = s2[i];
        e1.rel_path@ == e2.rel_path@ && e1.left_content@ == e2.right_content@
            && e1.right_content@ == e2.left_content@ && e1.left_path@ == e2.right_path@
            && e1.right_path@ == e2.left_path@ && ((e1.status@ == "identical"@) <==> (e2.status@
            == "identical"@)) && ((e1.status@ == "different"@) <==> (e2.status@ == "different"@))
            && ((e1.status@ == "only_left"@) <==> (e2.status@ == "only_right"@)) && ((e1.status@
            == "only_right"@) <==> (e2.status@ == "only_left"@))
    } by {
        assert(entry_ok(s1[i], lm, rm, lroot, rroot));
        assert(entry_ok(s2[i], rm, lm, rroot, lroot));
    }
    lemma_count_status_congruent(s1, s2, "identical"@, "identical"@);
    lemma_count_status_congruent(s1, s2, "different"@, "different"@);
    lemma_count_status_congruent(s1, s2, "only_left"@, "only_right"@);
    lemma_count_status_congruent(s1, s2, "only_right"@, "only_left"@);
    assert forall|k: Seq<char>| #[trigger] r1.ignored_dirs.deep_view().contains(k)
        <==> #[trigger] r2.ignored_dirs.deep_view().contains(k) by {}
    lemma_sorted_paths_equal(r1.ignored_dirs.deep_view(), r2.ignored_dirs.deep_view());
}

/// A pruned directory stands in the ignored list exactly once, even
/// when both sides pruned it: the list is strictly sorted, so no path
/// is listed at two positions.
pub proof fn lemma_ignored_listed_once(s: Seq<Seq<char>>, i: int, j: int)
    requires
        sorted_paths(s),
        0 <= i < s.len(),
        0 <= j < s.len(),
        s[i] == s[j],
    ensures
        i == j,
{
    if i < j {
        assert(lex_lt(s[i], s[j]));
        lemma_lex_irrefl(s[i], 0);
    }
    if j < i {
        assert(lex_lt(s[j], s[i]));
        lemma_lex_irrefl(s[i], 0);
    }
}

/// A file with the same text on both sides, within the size ceiling
/// and not under any directory an ignore rule prunes, yields exactly
/// one report entry, and its status is `identical`. Trees are
/// well-formed as a filesystem hands them out: unique, separator-free
/// names within each directory.
pub proof fn lemma_identical_file_reported(
    res: CompareResult,
    lt: FsTree,
    rt: FsTree,
    ign: Seq<Seq<char>>,
    segs: Seq<Seq<char>>,
    c: Seq<char>,
    lroot: Seq<char>,
    rroot: Seq<char>,
)
    requires
        wf_tree(lt),
        wf_tree(rt),
        compare_post(
            res,
            entry_map_of(scan_files(lt, Seq::empty(), ign)),
            entry_map_of(scan_files(rt, Seq::empty(), ign)),
            pruned_dirs(lt, Seq::empty(), ign),
            pruned_dirs(rt, Seq::empty(), ign),
            lroot,
            rroot,
        ),
        readable_file_at(lt, segs, c),
        readable_file_at(rt, segs, c),
        forall|q: int| 0 <= q < segs.len() - 1 ==> !ign.contains(#[trigger] segs[q]),
    ensures
        exists|i: int|
            0 <= i < res.entries@.len() && (#[trigger] res.entries@[i].rel_path@) == rel_join(
                Seq::empty(),
                segs,
            ) && res.entries@[i].status@ == "identical"@,
        forall|i: int, j: int|
            0 <= i < res.entries@.len() && 0 <= j < res.entries@.len()
                && res.entries@[i].rel_path@ == res.entries@[j].rel_path@ ==> i == j,
{
    let lm = entry_map_of(scan_files(lt, Seq::empty(), ign));
    let rm = entry_map_of(scan_files(rt, Seq::empty(), ign));
    let k = rel_join(Seq::empty(), segs);
    lemma_scan_complete(lt, Seq::empty(), ign, segs, c);
    lemma_scan_complete(rt, Seq::empty(), ign, segs, c);
    assert(appears(res.entries@, k));
    let i = choose|i: int|
        0 <= i < res.entries@.len() && (#[trigger] res.entries@[i].rel_path@) == k;
    assert(entry_ok(res.entries@[i], lm, rm, lroot, rroot));
    assert(res.entries@[i].status@ == "identical"@);
    assert forall|a: int, b: int|
        0 <= a < res.entries@.len() && 0 <= b < res.entries@.len()
            && res.entries@[a].rel_path@ == res.entries@[b].rel_path@ implies a == b by {
        if a < b {
            assert(lex_lt(res.entries@[a].rel_path@, res.entries@[b].rel_path@));
            lemma_lex_irrefl(res.entries@[a].rel_path@, 0);
        }
        if b < a {
            assert(lex_lt(res.entries@[b].rel_path@, res.entries@[a].rel_path@));
            lemma_lex_irrefl(res.entries@[a].rel_path@, 0);
        }
    }
}

/// Files strictly inside a directory whose name matches an ignore
/// rule contribute no entry to the report, on either side.
pub proof fn lemma_ignored_dir_hides_files(
    res: CompareResult,
    lt: FsTree,
    rt: FsTree,
    ign: Seq<Seq<char>>,
    segs: Seq<Seq<char>>,
    lroot: Seq<char>,
    rroot: Seq<char>,
)
    requires
        wf_tree(lt),
        wf_tree(rt),
        compare_post(
            res,
            entry_map_of(scan_files(lt, Seq::empty(), ign)),
            entry_map_of(scan_files(rt, Seq::empty(), ign)),
            pruned_dirs(lt, Seq::empty(), ign),
            pruned_dirs(rt, Seq::empty(), ign),
            lroot,
            rroot,
        ),
        segs.len() >= 2,
        forall|q: int| 0 <= q < segs.len() ==> valid_name(#[trigger] segs[q]),
        exists|q: int| 0 <= q < segs.len() - 1 && ign.contains(#[trigger] segs[q]),
    ensures
        forall|i: int|
            0 <= i < res.entries@.len() ==> (#[trigger] res.entries@[i].rel_path@) != rel_join(
                Seq::empty(),
                segs,
            ),
{
    let lm = entry_map_of(scan_files(lt, Seq::empty(), ign));
    let rm = entry_map_of(scan_files(rt, Seq::empty(), ign));
    let k = rel_join(Seq::empty(), segs);
    lemma_scan_absent(lt, Seq::empty(), ign, segs);
    lemma_scan_absent(rt, Seq::empty(), ign, segs);
    assert forall|i: int| 0 <= i < res.entries@.len() implies (
    #[trigger] res.entries@[i].rel_path@) != k by {
        assert(entry_ok(res.entries@[i], lm, rm, lroot, rroot));
    }
}

/// A directory named exactly as an ignore rule, reached on either side
/// without passing another ignored name, stands in the report's
/// ignored list, and at exactly one position even when both sides
/// pruned it.
pub proof fn lemma_ignored_dir_recorded_once(
    res: CompareResult,
    lt: FsTree,
    rt: FsTree,
    ign: Seq<Seq<char>>,
    segs: Seq<Seq<char>>,
    lroot: Seq<char>,
    rroot: Seq<char>,
)
    requires
        wf_tree(lt),
        wf_tree(rt),
        compare_post(
            res,
            entry_map_of(scan_files(lt, Seq::empty(), ign)),
            entry_map_of(scan_files(rt, Seq::empty(), ign)),
            pruned_dirs(lt, Seq::empty(), ign),
            pruned_dirs(rt, Seq::empty(), ign),
            lroot,
            rroot,
        ),
        segs.len() >= 1,
        dir_at(lt, segs) || dir_at(rt, segs),
        ign.contains(segs[segs.len() - 1]),
        forall|q: int| 0 <= q < segs.len() - 1 ==> !ign.contains(#[trigger] segs[q]),
    ensures
        res.ignored_dirs.deep_view().contains(rel_join(Seq::empty(), segs)),
        forall|i: int, j: int|
            0 <= i < res.ignored_dirs.deep_view().len() && 0 <= j
                < res.ignored_dirs.deep_view().len() && res.ignored_dirs.deep_view()[i]
                == res.ignored_dirs.deep_view()[j] ==> i == j,
{
    let k = rel_join(Seq::empty(), segs);
    if dir_at(lt, segs) {
        lemma_pruned_complete(lt, Seq::empty(), ign, segs);
    } else {
        lemma_pruned_complete(rt, Seq::empty(), ign, segs);
    }
    assert(res.ignored_dirs.deep_view().contains(k));
    let dv = res.ignored_dirs.deep_view();
    assert forall|i: int, j: int|
        0 <= i < dv.len() && 0 <= j < dv.len() && dv[i] == dv[j] implies i == j by {
        lemma_ignored_listed_once(dv, i, j);
    }
}

} // verus!
