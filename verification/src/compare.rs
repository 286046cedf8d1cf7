//! The verified comparator: merges the scans of two trees into a
//! sorted, classified report with aggregate counts.

use vstd::prelude::*;
use vstd::string::StringExecFns;
use crate::order::{lex_lt, lemma_lex_irrefl, lemma_lex_transitive, str_cmp};
use crate::scanner::{abs_paths_ok, represents, scan_dir, sorted_entries, ScanEntry};
use crate::tree::{abs_of, entry_map_of, pruned_dirs, scan_files, FsTree};

verus! {

broadcast use vstd::std_specs::vec::group_vec_axioms;

/// One classified path of the report. Content and path fields of a side
/// the file is absent from hold the empty string.
pub struct CompareEntry {
    pub rel_path: String,
    pub status: String,
    pub left_content: String,
    pub right_content: String,
    pub left_path: String,
    pub right_path: String,
}

/// The whole report: classified entries sorted by relative path, the
/// aggregate counts, and the pruned directories of both sides, sorted
/// and deduplicated.
pub struct CompareResult {
    pub entries: Vec<CompareEntry>,
    pub total: usize,
    pub identical: usize,
    pub different: usize,
    pub only_left: usize,
    pub only_right: usize,
    pub ignored_dirs: Vec<String>,
}

/// The entry correctly classifies its relative path against the two
/// scanned mappings `lm` and `rm`.
pub open spec fn entry_ok(
    e: CompareEntry,
    lm: Map<Seq<char>, Seq<char>>,
    rm: Map<Seq<char>, Seq<char>>,
    lroot: Seq<char>,
    rroot: Seq<char>,
) -> bool {
    let k = e.rel_path@;
    if lm.dom().contains(k) && rm.dom().contains(k) {
        &&& e.status@ == if lm[k] == rm[k] {
            "identical"@
        } else {
            "different"@
        }
        &&& e.left_content@ == lm[k]
        &&& e.right_content@ == rm[k]
        &&& e.left_path@ == abs_of(lroot, k)
        &&& e.right_path@ == abs_of(rroot, k)
    } else if lm.dom().contains(k) {
        &&& e.status@ == "only_left"@
        &&& e.left_content@ == lm[k]
        &&& e.right_content@ == Seq::<char>::empty()
        &&& e.left_path@ == abs_of(lroot, k)
        &&& e.right_path@ == Seq::<char>::empty()
    } else if rm.dom().contains(k) {
        &&& e.status@ == "only_right"@
        &&& e.left_content@ == Seq::<char>::empty()
        &&& e.right_content@ == rm[k]
        &&& e.left_path@ == Seq::<char>::empty()
        &&& e.right_path@ == abs_of(rroot, k)
    } else {
        false
    }
}

/// The entry list is sorted strictly ascending by relative path, each
/// entry classifies its path correctly, and every path of either
/// mapping appears.
pub open spec fn entries_ok(
    s: Seq<CompareEntry>,
    lm: Map<Seq<char>, Seq<char>>,
    rm: Map<Seq<char>, Seq<char>>,
    lroot: Seq<char>,
    rroot: Seq<char>,
) -> bool {
    &&& sorted_report(s)
    &&& forall|i: int| 0 <= i < s.len() ==> entry_ok(#[trigger] s[i], lm, rm, lroot, rroot)
    &&& forall|k: Seq<char>|
        #[trigger] lm.dom().contains(k) || #[trigger] rm.dom().contains(k) ==> appears(s, k)
}

/// Report entries sorted strictly ascending by relative path.
pub open spec fn sorted_report(s: Seq<CompareEntry>) -> bool {
    forall|i: int, j: int| 0 <= i < j < s.len() ==> lex_lt(s[i].rel_path@, s[j].rel_path@)
}

/// Some entry of the report carries the relative path `k`.
pub open spec fn appears(out: Seq<CompareEntry>, k: Seq<char>) -> bool {
    exists|b: int| 0 <= b < out.len() && (#[trigger] out[b].rel_path@) == k
}

/// How many entries of `s` carry the status `st`.
pub open spec fn count_status(s: Seq<CompareEntry>, st: Seq<char>) -> nat
    decreases s.len(),
{
    if s.len() == 0 {
        0
    } else {
        count_status(s.drop_last(), st) + if s.last().status@ == st {
            1nat
        } else {
            0
        }
    }
}

proof fn lemma_count_status_push(s: Seq<CompareEntry>, e: CompareEntry, st: Seq<char>)
    ensures
        count_status(s.push(e), st) == count_status(s, st) + if e.status@ == st {
            1nat
        } else {
            0
        },
{
    assert(s.push(e).drop_last() =~= s);
    assert(s.push(e).last() == e);
}

/// A list of paths sorted strictly ascending: sorted with no
/// duplicates.
pub open spec fn sorted_paths(s: Seq<Seq<char>>) -> bool {
    forall|i: int, j: int| 0 <= i < j < s.len() ==> lex_lt(s[i], s[j])
}

/// Everything the comparison promises of its report, given the two
/// scanned mappings and the two pruned-directory lists.
pub open spec fn compare_post(
    res: CompareResult,
    lm: Map<Seq<char>, Seq<char>>,
    rm: Map<Seq<char>, Seq<char>>,
    lpruned: Seq<Seq<char>>,
    rpruned: Seq<Seq<char>>,
    lroot: Seq<char>,
    rroot: Seq<char>,
) -> bool {
    &&& entries_ok(res.entries@, lm, rm, lroot, rroot)
    &&& res.total == res.entries@.len()
    &&& res.identical == count_status(res.entries@, "identical"@)
    &&& res.different == count_status(res.entries@, "different"@)
    &&& res.only_left == count_status(res.entries@, "only_left"@)
    &&& res.only_right == count_status(res.entries@, "only_right"@)
    &&& res.total == res.identical + res.different + res.only_left + res.only_right
    &&& sorted_paths(res.ignored_dirs.deep_view())
    &&& forall|p: Seq<char>|
        #[trigger] res.ignored_dirs.deep_view().contains(p) <==> (lpruned.contains(p)
            || rpruned.contains(p))
}

/// Every processed path of `xs` comes before every unprocessed path of
/// `ys` in the merge.
pub open spec fn processed_below(xs: Seq<ScanEntry>, x: int, ys: Seq<ScanEntry>, y: int) -> bool {
    forall|b: int, a: int|
        0 <= b < x && y <= a < ys.len() ==> lex_lt(
            #[trigger] xs[b].rel_path@,
            #[trigger] ys[a].rel_path@,
        )
}

/// Every path already in the report comes before every unprocessed
/// path of `ys`.
pub open spec fn out_below(out: Seq<CompareEntry>, ys: Seq<ScanEntry>, y: int) -> bool {
    forall|b: int, a: int|
        0 <= b < out.len() && y <= a < ys.len() ==> lex_lt(
            #[trigger] out[b].rel_path@,
            #[trigger] ys[a].rel_path@,
        )
}

/// Every path of `xs[..x]` appears in the report.
pub open spec fn covered(out: Seq<CompareEntry>, xs: Seq<ScanEntry>, x: int) -> bool {
    forall|a: int| 0 <= a < x ==> appears(out, #[trigger] xs[a].rel_path@)
}

/// The four status labels are pairwise distinct.
pub proof fn lemma_status_distinct()
    ensures
        "identical"@ != "different"@,
        "identical"@ != "only_left"@,
        "identical"@ != "only_right"@,
        "different"@ != "only_left"@,
        "different"@ != "only_right"@,
        "only_left"@ != "only_right"@,
{
    reveal_strlit("identical");
    reveal_strlit("different");
    reveal_strlit("only_left");
    reveal_strlit("only_right");
    assert("identical"@[0] == 'i' && "different"@[0] == 'd' && "only_left"@[0] == 'o');
    assert("identical"@.len() == 9 && "different"@.len() == 9);
    assert("only_left"@.len() == 9 && "only_right"@.len() == 10);
    assert("only_left"@[5] == 'l');
}

/// Growing the report keeps every already-covered path covered.
proof fn lemma_covered_push(out: Seq<CompareEntry>, e: CompareEntry, xs: Seq<ScanEntry>, x: int)
    requires
        covered(out, xs, x),
    ensures
        covered(out.push(e), xs, x),
{
    assert forall|a: int| 0 <= a < x implies appears(out.push(e), #[trigger] xs[a].rel_path@) by {
        assert(appears(out, xs[a].rel_path@));
        let b = choose|b: int|
            0 <= b < out.len() && (#[trigger] out[b].rel_path@) == xs[a].rel_path@;
        assert(out.push(e)[b].rel_path@ == xs[a].rel_path@);
    }
}

/// Appending the entry for the next path of `xs` covers it too.
proof fn lemma_covered_next(out: Seq<CompareEntry>, e: CompareEntry, xs: Seq<ScanEntry>, x: int)
    requires
        covered(out, xs, x),
        0 <= x < xs.len(),
        e.rel_path@ == xs[x].rel_path@,
    ensures
        covered(out.push(e), xs, x + 1),
{
    assert forall|a: int| 0 <= a < x + 1 implies appears(
        out.push(e),
        #[trigger] xs[a].rel_path@,
    ) by {
        if a < x {
            assert(appears(out, xs[a].rel_path@));
            let b = choose|b: int|
                0 <= b < out.len() && (#[trigger] out[b].rel_path@) == xs[a].rel_path@;
            assert(out.push(e)[b].rel_path@ == xs[a].rel_path@);
        } else {
            assert(out.push(e)[out.len() as int].rel_path@ == xs[a].rel_path@);
        }
    }
}

/// Builds the report entry for a path present on both sides.
fn entry_both(le: &ScanEntry, re: &ScanEntry) -> (e: CompareEntry)
    requires
        le.rel_path@ == re.rel_path@,
    ensures
        e.rel_path@ == le.rel_path@,
        e.left_content@ == le.content@,
        e.right_content@ == re.content@,
        e.left_path@ == le.abs_path@,
        e.right_path@ == re.abs_path@,
        e.status@ == if le.content@ == re.content@ {
            "identical"@
        } else {
            "different"@
        },
{
    let same = le.content == re.content;
    CompareEntry {
        rel_path: le.rel_path.clone(),
        status: if same {
            String::from_str("identical")
        } else {
            String::from_str("different")
        },
        left_content: le.content.clone(),
        right_content: re.content.clone(),
        left_path: le.abs_path.clone(),
        right_path: re.abs_path.clone(),
    }
}

/// Builds the report entry for a path present only on the left.
fn entry_only_left(le: &ScanEntry) -> (e: CompareEntry)
    ensures
        e.rel_path@ == le.rel_path@,
        e.status@ == "only_left"@,
        e.left_content@ == le.content@,
        e.right_content@ == Seq::<char>::empty(),
        e.left_path@ == le.abs_path@,
        e.right_path@ == Seq::<char>::empty(),
{
    CompareEntry {
        rel_path: le.rel_path.clone(),
        status: String::from_str("only_left"),
        left_content: le.content.clone(),
        right_content: String::new(),
        left_path: le.abs_path.clone(),
        right_path: String::new(),
    }
}

/// Builds the report entry for a path present only on the right.
fn entry_only_right(re: &ScanEntry) -> (e: CompareEntry)
    ensures
        e.rel_path@ == re.rel_path@,
        e.status@ == "only_right"@,
        e.left_content@ == Seq::<char>::empty(),
        e.right_content@ == re.content@,
        e.left_path@ == Seq::<char>::empty(),
        e.right_path@ == re.abs_path@,
{
    CompareEntry {
        rel_path: re.rel_path.clone(),
        status: String::from_str("only_right"),
        left_content: String::new(),
        right_content: re.content.clone(),
        left_path: String::new(),
        right_path: re.abs_path.clone(),
    }
}

/// Finds where `key` stands among the sorted paths.
fn find_path_pos(v: &Vec<String>, key: &String) -> (r: (usize, bool))
    requires
        sorted_paths(v.deep_view()),
    ensures
        r.0 <= v@.len(),
        forall|j: int| 0 <= j < r.0 ==> lex_lt(#[trigger] v.deep_view()[j], key@),
        r.1 ==> r.0 < v@.len() && v.deep_view()[r.0 as int] == key@,
        !r.1 ==> forall|j: int|
            r.0 <= j < v@.len() ==> lex_lt(key@, #[trigger] v.deep_view()[j]),
{
    let mut i: usize = 0;
    while i < v.len()
        invariant
            sorted_paths(v.deep_view()),
            0 <= i <= v@.len(),
            forall|j: int| 0 <= j < i ==> lex_lt(#[trigger] v.deep_view()[j], key@),
        decreases v@.len() - i,
    {
        let c = str_cmp(v[i].as_str(), key.as_str());
        proof {
            assert(v.deep_view()[i as int] == v@[i as int]@);
        }
        if c == 0 {
            return (i, true);
        }
        if c == 1 {
            proof {
                assert forall|j: int| i <= j < v@.len() implies lex_lt(
                    key@,
                    #[trigger] v.deep_view()[j],
                ) by {
                    if j > i {
                        lemma_lex_transitive(key@, v.deep_view()[i as int], v.deep_view()[j]);
                    }
                }
            }
            return (i, false);
        }
        i = i + 1;
    }
    (i, false)
}

/// Puts the path `p` at its place in the sorted deduplicated list,
/// doing nothing when it is already there.
fn insert_path(v: &mut Vec<String>, p: String)
    requires
        sorted_paths(old(v).deep_view()),
    ensures
        sorted_paths(final(v).deep_view()),
        forall|k: Seq<char>|
            #[trigger] final(v).deep_view().contains(k) <==> (old(v).deep_view().contains(k) || k
                == p@),
{
    let ghost olddv = v.deep_view();
    let (i, found) = find_path_pos(v, &p);
    if found {
        proof {
            assert(olddv.contains(p@));
            assert forall|k: Seq<char>| #[trigger]
                v.deep_view().contains(k) <==> (olddv.contains(k) || k == p@) by {}
        }
        return ;
    }
    v.insert(i, p);
    proof {
        let dv = v.deep_view();
        assert(dv.len() == olddv.len() + 1);
        assert forall|j: int| 0 <= j < dv.len() implies dv[j] == if j < i {
            olddv[j]
        } else if j == i {
            p@
        } else {
            olddv[j - 1]
        } by {
            if j < i {
                assert(v@[j] == old(v)@[j]);
            } else if j > i {
                assert(v@[j] == old(v)@[j - 1]);
            }
        }
        assert forall|a: int, b: int| 0 <= a < b < dv.len() implies lex_lt(dv[a], dv[b]) by {
            if b < i {
                assert(lex_lt(olddv[a], olddv[b]));
            } else if a > i {
                assert(lex_lt(olddv[a - 1], olddv[b - 1]));
            } else if a < i && b == i {
                assert(lex_lt(olddv[a], p@));
            } else if a == i {
                assert(lex_lt(p@, olddv[b - 1]));
            } else {
                assert(lex_lt(olddv[a], olddv[b - 1]));
            }
        }
        assert forall|k: Seq<char>| #[trigger]
            dv.contains(k) <==> (olddv.contains(k) || k == p@) by {
            if olddv.contains(k) {
                let j = choose|j: int| 0 <= j < olddv.len() && olddv[j] == k;
                if j < i {
                    assert(dv[j] == k);
                } else {
                    assert(dv[j + 1] == k);
                }
            }
            if k == p@ {
                assert(dv[i as int] == k);
            }
            if dv.contains(k) && k != p@ {
                let j = choose|j: int| 0 <= j < dv.len() && dv[j] == k;
                if j < i {
                    assert(olddv[j] == k);
                } else {
                    assert(j != i);
                    assert(olddv[j - 1] == k);
                }
            }
        }
    }
}

/// Adds every path of `src` to the sorted deduplicated list.
fn merge_paths(v: &mut Vec<String>, src: &Vec<String>)
    requires
        sorted_paths(old(v).deep_view()),
    ensures
        sorted_paths(final(v).deep_view()),
        forall|k: Seq<char>|
            #[trigger] final(v).deep_view().contains(k) <==> (old(v).deep_view().contains(k)
                || src.deep_view().contains(k)),
{
    let ghost dv0 = old(v).deep_view();
    let ghost sdv = src.deep_view();
    let mut x: usize = 0;
    while x < src.len()
        invariant
            sdv == src.deep_view(),
            0 <= x <= src@.len(),
            sdv.len() == src@.len(),
            sorted_paths(v.deep_view()),
            forall|k: Seq<char>|
                #[trigger] v.deep_view().contains(k) <==> (dv0.contains(k) || sdv.take(
                    x as int,
                ).contains(k)),
        decreases src@.len() - x,
    {
        let ghost before = v.deep_view();
        insert_path(v, src[x].clone());
        proof {
            assert(sdv[x as int] == src@[x as int]@);
            assert(sdv.take(x as int + 1) =~= sdv.take(x as int).push(sdv[x as int]));
            assert forall|k: Seq<char>| #[trigger]
                sdv.take(x as int + 1).contains(k) <==> (sdv.take(x as int).contains(k) || k
                    == sdv[x as int]) by {
                let t1 = sdv.take(x as int + 1);
                let t0 = sdv.take(x as int);
                if t1.contains(k) {
                    let j = choose|j: int| 0 <= j < t1.len() && t1[j] == k;
                    if j < x {
                        assert(t0[j] == k);
                    }
                }
                if t0.contains(k) {
                    let j = choose|j: int| 0 <= j < t0.len() && t0[j] == k;
                    assert(t1[j] == k);
                }
                if k == sdv[x as int] {
                    assert(t1[x as int] == k);
                }
            }
        }
        x = x + 1;
    }
    proof {
        assert(sdv.take(src@.len() as int) =~= sdv);
    }
}

/// Compares the two trees `left` and `right`, which stand for the
/// directories at `left_path` and `right_path`: scans both sides with
/// the same ignore rules, merges the scans by relative path, classifies
/// every path present on either side, and aggregates the counts and the
/// pruned directories.
pub fn compare(
    left: &FsTree,
    left_path: &str,
    right: &FsTree,
    right_path: &str,
    ignore_dirs: &Vec<String>,
) -> (res: CompareResult)
    ensures
        compare_post(
            res,
            entry_map_of(scan_files(*left, Seq::empty(), ignore_dirs.deep_view())),
            entry_map_of(scan_files(*right, Seq::empty(), ignore_dirs.deep_view())),
            pruned_dirs(*left, Seq::empty(), ignore_dirs.deep_view()),
            pruned_dirs(*right, Seq::empty(), ignore_dirs.deep_view()),
            left_path@,
            right_path@,
        ),
{
    let ghost ign = ignore_dirs.deep_view();
    let ghost lm = entry_map_of(scan_files(*left, Seq::empty(), ign));
    let ghost rm = entry_map_of(scan_files(*right, Seq::empty(), ign));
    let (lv, li) = scan_dir(left, left_path, ignore_dirs);
    let (rv, ri) = scan_dir(right, right_path, ignore_dirs);

    let mut ignored_dirs: Vec<String> = Vec::new();
    merge_paths(&mut ignored_dirs, &li);
    merge_paths(&mut ignored_dirs, &ri);

    let mut entries: Vec<CompareEntry> = Vec::new();
    let mut identical: usize = 0;
    let mut different: usize = 0;
    let mut only_left: usize = 0;
    let mut only_right: usize = 0;
    let mut i: usize = 0;
    let mut j: usize = 0;
    let ln = lv.len();
    let rn = rv.len();
    while i < ln || j < rn
        invariant
            ln == lv@.len(),
            rn == rv@.len(),
            0 <= i <= ln,
            0 <= j <= rn,
            sorted_entries(lv@),
            sorted_entries(rv@),
            represents(lv@, lm),
            represents(rv@, rm),
            abs_paths_ok(lv@, left_path@),
            abs_paths_ok(rv@, right_path@),
            forall|a: int, b: int|
                0 <= a < b < entries@.len() ==> lex_lt(
                    entries@[a].rel_path@,
                    entries@[b].rel_path@,
                ),
            forall|b: int|
                0 <= b < entries@.len() ==> entry_ok(
                    #[trigger] entries@[b],
                    lm,
                    rm,
                    left_path@,
                    right_path@,
                ),
            covered(entries@, lv@, i as int),
            covered(entries@, rv@, j as int),
            out_below(entries@, lv@, i as int),
            out_below(entries@, rv@, j as int),
            processed_below(lv@, i as int, rv@, j as int),
            processed_below(rv@, j as int, lv@, i as int),
            identical == count_status(entries@, "identical"@),
            different == count_status(entries@, "different"@),
            only_left == count_status(entries@, "only_left"@),
            only_right == count_status(entries@, "only_right"@),
            entries@.len() == identical + different + only_left + only_right,
        decreases (ln - i) + (rn - j),
    {
        let ghost out0 = entries@;
        if i < ln && j < rn {
            let c = str_cmp(lv[i].rel_path.as_str(), rv[j].rel_path.as_str());
            if c == 0 {
                let same = lv[i].content == rv[j].content;
                let e = entry_both(&lv[i], &rv[j]);
                proof {
                    let k = lv@[i as int].rel_path@;
                    assert(lm.dom().contains(k) && lm[k] == lv@[i as int].content@);
                    assert(rm.dom().contains(k) && rm[k] == rv@[j as int].content@);
                    assert(entry_ok(e, lm, rm, left_path@, right_path@));
                    lemma_count_status_push(out0, e, "identical"@);
                    lemma_count_status_push(out0, e, "different"@);
                    lemma_count_status_push(out0, e, "only_left"@);
                    lemma_count_status_push(out0, e, "only_right"@);
                    lemma_status_distinct();
                    lemma_covered_next(out0, e, lv@, i as int);
                    lemma_covered_next(out0, e, rv@, j as int);
                    assert forall|b: int, a: int|
                        0 <= b < out0.len() + 1 && i + 1 <= a < lv@.len() implies lex_lt(
                        #[trigger] out0.push(e)[b].rel_path@,
                        #[trigger] lv@[a].rel_path@,
                    ) by {
                        if b < out0.len() {
                            assert(lex_lt(out0[b].rel_path@, lv@[a].rel_path@));
                        } else {
                            assert(lex_lt(lv@[i as int].rel_path@, lv@[a].rel_path@));
                        }
                    }
                    assert forall|b: int, a: int|
                        0 <= b < out0.len() + 1 && j + 1 <= a < rv@.len() implies lex_lt(
                        #[trigger] out0.push(e)[b].rel_path@,
                        #[trigger] rv@[a].rel_path@,
                    ) by {
                        if b < out0.len() {
                            assert(lex_lt(out0[b].rel_path@, rv@[a].rel_path@));
                        } else {
                            assert(lex_lt(rv@[j as int].rel_path@, rv@[a].rel_path@));
                        }
                    }
                }
                entries.push(e);
                let new_len = entries.len();
                proof {
                    assert(new_len == out0.len() + 1);
                }
                if same {
                    identical = identical + 1;
                } else {
                    different = different + 1;
                }
                i = i + 1;
                j = j + 1;
            } else if c == -1 {
                let e = entry_only_left(&lv[i]);
                proof {
                    let k = lv@[i as int].rel_path@;
                    assert(lm.dom().contains(k) && lm[k] == lv@[i as int].content@);
                    assert(!rm.dom().contains(k)) by {
                        if rm.dom().contains(k) {
                            let b = choose|b: int|
                                0 <= b < rv@.len() && (#[trigger] rv@[b].rel_path@) == k;
                            if b < j {
                                assert(lex_lt(rv@[b].rel_path@, lv@[i as int].rel_path@));
                                lemma_lex_irrefl(k, 0);
                            } else {
                                if b > j {
                                    lemma_lex_transitive(
                                        k,
                                        rv@[j as int].rel_path@,
                                        rv@[b].rel_path@,
                                    );
                                }
                                lemma_lex_irrefl(k, 0);
                            }
                        }
                    }
                    assert(entry_ok(e, lm, rm, left_path@, right_path@));
                    lemma_count_status_push(out0, e, "identical"@);
                    lemma_count_status_push(out0, e, "different"@);
                    lemma_count_status_push(out0, e, "only_left"@);
                    lemma_count_status_push(out0, e, "only_right"@);
                    lemma_status_distinct();
                    lemma_covered_next(out0, e, lv@, i as int);
                    lemma_covered_push(out0, e, rv@, j as int);
                    assert forall|b: int, a: int|
                        0 <= b < out0.len() + 1 && i + 1 <= a < lv@.len() implies lex_lt(
                        #[trigger] out0.push(e)[b].rel_path@,
                        #[trigger] lv@[a].rel_path@,
                    ) by {
                        if b == out0.len() {
                            assert(lex_lt(lv@[i as int].rel_path@, lv@[a].rel_path@));
                        }
                    }
                    assert forall|b: int, a: int|
                        0 <= b < out0.len() + 1 && j <= a < rv@.len() implies lex_lt(
                        #[trigger] out0.push(e)[b].rel_path@,
                        #[trigger] rv@[a].rel_path@,
                    ) by {
                        if b == out0.len() {
                            if a > j {
                                lemma_lex_transitive(
                                    lv@[i as int].rel_path@,
                                    rv@[j as int].rel_path@,
                                    rv@[a].rel_path@,
                                );
                            }
                        }
                    }
                    assert forall|b: int, a: int|
                        0 <= b < i + 1 && j <= a < rv@.len() implies lex_lt(
                        #[trigger] lv@[b].rel_path@,
                        #[trigger] rv@[a].rel_path@,
                    ) by {
                        if b == i {
                            if a > j {
                                lemma_lex_transitive(
                                    lv@[i as int].rel_path@,
                                    rv@[j as int].rel_path@,
                                    rv@[a].rel_path@,
                                );
                            }
                        }
                    }
                }
                entries.push(e);
                let new_len = entries.len();
                proof {
                    assert(new_len == out0.len() + 1);
                }
                only_left = only_left + 1;
                i = i + 1;
            } else {
                let e = entry_only_right(&rv[j]);
                proof {
                    let k = rv@[j as int].rel_path@;
                    assert(rm.dom().contains(k) && rm[k] == rv@[j as int].content@);
                    assert(!lm.dom().contains(k)) by {
                        if lm.dom().contains(k) {
                            let b = choose|b: int|
                                0 <= b < lv@.len() && (#[trigger] lv@[b].rel_path@) == k;
                            if b < i {
                                assert(lex_lt(lv@[b].rel_path@, rv@[j as int].rel_path@));
                                lemma_lex_irrefl(k, 0);
                            } else {
                                if b > i {
                                    lemma_lex_transitive(
                                        k,
                                        lv@[i as int].rel_path@,
                                        lv@[b].rel_path@,
                                    );
                                }
                                lemma_lex_irrefl(k, 0);
                            }
                        }
                    }
                    assert(entry_ok(e, lm, rm, left_path@, right_path@));
                    lemma_count_status_push(out0, e, "identical"@);
                    lemma_count_status_push(out0, e, "different"@);
                    lemma_count_status_push(out0, e, "only_left"@);
                    lemma_count_status_push(out0, e, "only_right"@);
                    lemma_status_distinct();
                    lemma_covered_push(out0, e, lv@, i as int);
                    lemma_covered_next(out0, e, rv@, j as int);
                    assert forall|b: int, a: int|
                        0 <= b < out0.len() + 1 && j + 1 <= a < rv@.len() implies lex_lt(
                        #[trigger] out0.push(e)[b].rel_path@,
                        #[trigger] rv@[a].rel_path@,
                    ) by {
                        if b == out0.len() {
                            assert(lex_lt(rv@[j as int].rel_path@, rv@[a].rel_path@));
                        }
                    }
                    assert forall|b: int, a: int|
                        0 <= b < out0.len() + 1 && i <= a < lv@.len() implies lex_lt(
                        #[trigger] out0.push(e)[b].rel_path@,
                        #[trigger] lv@[a].rel_path@,
                    ) by {
                        if b == out0.len() {
                            if a > i {
                                lemma_lex_transitive(
                                    rv@[j as int].rel_path@,
                                    lv@[i as int].rel_path@,
                                    lv@[a].rel_path@,
                                );
                            }
                        }
                    }
                    assert forall|b: int, a: int|
                        0 <= b < j + 1 && i <= a < lv@.len() implies lex_lt(
                        #[trigger] rv@[b].rel_path@,
                        #[trigger] lv@[a].rel_path@,
                    ) by {
                        if b == j {
                            if a > i {
                                lemma_lex_transitive(
                                    rv@[j as int].rel_path@,
                                    lv@[i as int].rel_path@,
                                    lv@[a].rel_path@,
                                );
                            }
                        }
                    }
                }
                entries.push(e);
                let new_len = entries.len();
                proof {
                    assert(new_len == out0.len() + 1);
                }
                only_right = only_right + 1;
                j = j + 1;
            }
        } else if i < ln {
            let e = entry_only_left(&lv[i]);
            proof {
                let k = lv@[i as int].rel_path@;
                assert(lm.dom().contains(k) && lm[k] == lv@[i as int].content@);
                assert(!rm.dom().contains(k)) by {
                    if rm.dom().contains(k) {
                        let b = choose|b: int|
                            0 <= b < rv@.len() && (#[trigger] rv@[b].rel_path@) == k;
                        assert(lex_lt(rv@[b].rel_path@, lv@[i as int].rel_path@));
                        lemma_lex_irrefl(k, 0);
                    }
                }
                assert(entry_ok(e, lm, rm, left_path@, right_path@));
                lemma_count_status_push(out0, e, "identical"@);
                lemma_count_status_push(out0, e, "different"@);
                lemma_count_status_push(out0, e, "only_left"@);
                lemma_count_status_push(out0, e, "only_right"@);
                lemma_status_distinct();
                lemma_covered_next(out0, e, lv@, i as int);
                lemma_covered_push(out0, e, rv@, j as int);
                assert forall|b: int, a: int|
                    0 <= b < out0.len() + 1 && i + 1 <= a < lv@.len() implies lex_lt(
                    #[trigger] out0.push(e)[b].rel_path@,
                    #[trigger] lv@[a].rel_path@,
                ) by {
                    if b == out0.len() {
                        assert(lex_lt(lv@[i as int].rel_path@, lv@[a].rel_path@));
                    }
                }
            }
            entries.push(e);
            let new_len = entries.len();
            proof {
                assert(new_len == out0.len() + 1);
            }
            only_left = only_left + 1;
            i = i + 1;
        } else {
            let e = entry_only_right(&rv[j]);
            proof {
                let k = rv@[j as int].rel_path@;
                assert(rm.dom().contains(k) && rm[k] == rv@[j as int].content@);
                assert(!lm.dom().contains(k)) by {
                    if lm.dom().contains(k) {
                        let b = choose|b: int|
                            0 <= b < lv@.len() && (#[trigger] lv@[b].rel_path@) == k;
                        assert(lex_lt(lv@[b].rel_path@, rv@[j as int].rel_path@));
                        lemma_lex_irrefl(k, 0);
                    }
                }
                assert(entry_ok(e, lm, rm, left_path@, right_path@));
                lemma_count_status_push(out0, e, "identical"@);
                lemma_count_status_push(out0, e, "different"@);
                lemma_count_status_push(out0, e, "only_left"@);
                lemma_count_status_push(out0, e, "only_right"@);
                lemma_status_distinct();
                lemma_covered_push(out0, e, lv@, i as int);
                lemma_covered_next(out0, e, rv@, j as int);
                assert forall|b: int, a: int|
                    0 <= b < out0.len() + 1 && j + 1 <= a < rv@.len() implies lex_lt(
                    #[trigger] out0.push(e)[b].rel_path@,
                    #[trigger] rv@[a].rel_path@,
                ) by {
                    if b == out0.len() {
                        assert(lex_lt(rv@[j as int].rel_path@, rv@[a].rel_path@));
                    }
                }
            }
            entries.push(e);
            let new_len = entries.len();
            proof {
                assert(new_len == out0.len() + 1);
            }
            only_right = only_right + 1;
            j = j + 1;
        }
    }
    proof {
        assert forall|k: Seq<char>|
            #[trigger] lm.dom().contains(k) || #[trigger] rm.dom().contains(k) implies appears(
            entries@,
            k,
        ) by {
            if lm.dom().contains(k) {
                let a = choose|a: int| 0 <= a < lv@.len() && (#[trigger] lv@[a].rel_path@) == k;
                assert(appears(entries@, lv@[a].rel_path@));
            } else {
                let a = choose|a: int| 0 <= a < rv@.len() && (#[trigger] rv@[a].rel_path@) == k;
                assert(appears(entries@, rv@[a].rel_path@));
            }
        }
    }
    let total = entries.len();
    CompareResult { entries, total, identical, different, only_left, only_right, ignored_dirs }
}

} // verus!
