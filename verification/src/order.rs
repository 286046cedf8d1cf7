//! Lexicographic order on character sequences, used to sort report
//! entries and ignored-directory lists by relative path.

use vstd::prelude::*;

verus! {

/// Lexicographic "strictly less" on the tails of `a` and `b` that start
/// at index `i`: the first differing character decides; a proper prefix
/// comes first.
pub open spec fn lex_lt_from(a: Seq<char>, b: Seq<char>, i: int) -> bool
    decreases a.len() - i,
{
    if i >= a.len() {
        i < b.len()
    } else if i >= b.len() {
        false
    } else if a[i] != b[i] {
        (a[i] as int) < (b[i] as int)
    } else {
        lex_lt_from(a, b, i + 1)
    }
}

/// Lexicographic "strictly less" on whole character sequences.
pub open spec fn lex_lt(a: Seq<char>, b: Seq<char>) -> bool {
    lex_lt_from(a, b, 0)
}

/// The order is irreflexive.
pub proof fn lemma_lex_irrefl(a: Seq<char>, i: int)
    ensures
        !lex_lt_from(a, a, i),
    decreases a.len() - i,
{
    if i < a.len() {
        lemma_lex_irrefl(a, i + 1);
    }
}

/// Two sequences that agree before `i` and are unordered from `i` on are
/// equal: the order is connected.
pub proof fn lemma_lex_connected_from(a: Seq<char>, b: Seq<char>, i: int)
    requires
        0 <= i,
        !lex_lt_from(a, b, i),
        !lex_lt_from(b, a, i),
        forall|j: int| 0 <= j < i ==> a[j] == b[j],
        i <= a.len(),
        i <= b.len(),
    ensures
        a == b,
    decreases a.len() - i,
{
    if i >= a.len() {
        assert(b.len() <= i);
        assert(a =~= b);
    } else if i >= b.len() {
        assert(false);
    } else if a[i] != b[i] {
        assert(false);
    } else {
        lemma_lex_connected_from(a, b, i + 1);
    }
}

/// The order is asymmetric.
pub proof fn lemma_lex_asymmetric_from(a: Seq<char>, b: Seq<char>, i: int)
    requires
        lex_lt_from(a, b, i),
    ensures
        !lex_lt_from(b, a, i),
    decreases a.len() - i,
{
    if i < a.len() && i < b.len() && a[i] == b[i] {
        lemma_lex_asymmetric_from(a, b, i + 1);
    }
}

/// Asymmetry on whole sequences.
pub proof fn lemma_lex_asymmetric(a: Seq<char>, b: Seq<char>)
    requires
        lex_lt(a, b),
    ensures
        !lex_lt(b, a),
{
    lemma_lex_asymmetric_from(a, b, 0);
}

/// The order is transitive.
pub proof fn lemma_lex_transitive_from(a: Seq<char>, b: Seq<char>, c: Seq<char>, i: int)
    requires
        lex_lt_from(a, b, i),
        lex_lt_from(b, c, i),
    ensures
        lex_lt_from(a, c, i),
    decreases a.len() - i,
{
    if i >= a.len() {
    } else if i >= b.len() {
        assert(false);
    } else if i >= c.len() {
        assert(false);
    } else if a[i] == b[i] && b[i] == c[i] {
        lemma_lex_transitive_from(a, b, c, i + 1);
    }
}

/// Transitivity on whole sequences.
pub proof fn lemma_lex_transitive(a: Seq<char>, b: Seq<char>, c: Seq<char>)
    requires
        lex_lt(a, b),
        lex_lt(b, c),
    ensures
        lex_lt(a, c),
{
    lemma_lex_transitive_from(a, b, c, 0);
}

/// Three-way comparison of two strings in the lexicographic character
/// order: negative when `a` comes first, positive when `b` does, zero
/// exactly when they are equal.
pub fn str_cmp(a: &str, b: &str) -> (r: i8)
    ensures
        r == -1 <==> lex_lt(a@, b@),
        r == 1 <==> lex_lt(b@, a@),
        r == 0 <==> a@ == b@,
        r == -1 || r == 0 || r == 1,
{
    let a_len: usize = a.unicode_len();
    let b_len: usize = b.unicode_len();
    let mut i: usize = 0;
    loop
        invariant
            0 <= i <= a_len,
            0 <= i <= b_len,
            a_len == a@.len(),
            b_len == b@.len(),
            forall|j: int| 0 <= j < i ==> a@[j] == b@[j],
            lex_lt(a@, b@) == lex_lt_from(a@, b@, i as int),
            lex_lt(b@, a@) == lex_lt_from(b@, a@, i as int),
        decreases a_len - i,
    {
        if i >= a_len {
            if i < b_len {
                return -1;
            } else {
                proof {
                    lemma_lex_connected_from(a@, b@, i as int);
                }
                return 0;
            }
        }
        if i >= b_len {
            return 1;
        }
        let ca = a.get_char(i);
        let cb = b.get_char(i);
        if (ca as u32) < (cb as u32) {
            proof {
                lemma_lex_asymmetric_from(a@, b@, i as int);
            }
            return -1;
        }
        if (cb as u32) < (ca as u32) {
            proof {
                lemma_lex_asymmetric_from(b@, a@, i as int);
            }
            return 1;
        }
        i = i + 1;
    }
}

} // verus!
