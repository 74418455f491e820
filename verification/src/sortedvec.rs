//! Option sets are strictly increasing vectors of tile indices: a
//! canonical, duplicate-free encoding of a finite set of `usize`.

use vstd::prelude::*;

verus! {

/// Strictly increasing: the canonical encoding of a set.
pub open spec fn strictly_sorted(s: Seq<usize>) -> bool {
    forall|i: int, j: int| 0 <= i < j < s.len() ==> s[i] < s[j]
}

/// Every entry is below `n`.
pub open spec fn all_below(s: Seq<usize>, n: int) -> bool {
    forall|k: int| 0 <= k < s.len() ==> s[k] < n
}

/// Every member of `a` is a member of `b`.
pub open spec fn subset_of(a: Seq<usize>, b: Seq<usize>) -> bool {
    forall|e: usize| #[trigger] a.contains(e) ==> b.contains(e)
}

/// In a strictly sorted sequence the entry at `i` is at least `i`.
pub proof fn lemma_sorted_index_ge(s: Seq<usize>, i: int)
    requires
        strictly_sorted(s),
        0 <= i < s.len(),
    ensures
        s[i] >= i,
    decreases i,
{
    if i > 0 {
        lemma_sorted_index_ge(s, i - 1);
    }
}

/// A strictly sorted sequence of values below `n` has at most `n`
/// entries.
pub proof fn lemma_sorted_len_le(s: Seq<usize>, n: int)
    requires
        strictly_sorted(s),
        all_below(s, n),
        0 <= n,
    ensures
        s.len() <= n,
{
    if s.len() > 0 {
        lemma_sorted_index_ge(s, s.len() - 1);
    }
}

/// In a strictly sorted sequence filling `[0, n)` completely, the
/// entry at `i` is at most `i`.
pub proof fn lemma_sorted_index_le(s: Seq<usize>, n: int, i: int)
    requires
        strictly_sorted(s),
        all_below(s, n),
        s.len() == n,
        0 <= i < n,
    ensures
        s[i] <= i,
    decreases n - i,
{
    if i == n - 1 {
    } else {
        lemma_sorted_index_le(s, n, i + 1);
    }
}

/// A strictly sorted sequence of values below `n` that misses some
/// value below `n` has fewer than `n` entries.
pub proof fn lemma_absent_bounds_len(s: Seq<usize>, n: int, v: usize)
    requires
        strictly_sorted(s),
        all_below(s, n),
        0 <= v < n,
        !s.contains(v),
    ensures
        s.len() < n,
{
    lemma_sorted_len_le(s, n);
    if s.len() == n {
        lemma_sorted_index_ge(s, v as int);
        lemma_sorted_index_le(s, n, v as int);
        assert(s[v as int] == v);
        assert(s.contains(v));
    }
}

/// A nonempty sorted subset of a one-element set is that set.
pub proof fn lemma_singleton_subset(s: Seq<usize>, t: Seq<usize>)
    requires
        strictly_sorted(s),
        s.len() >= 1,
        t.len() == 1,
        subset_of(s, t),
    ensures
        s.len() == 1,
        s[0] == t[0],
{
    assert(s.contains(s[0]));
    assert(t.contains(s[0]));
    assert(s[0] == t[0]) by {
        let k = choose|k: int| 0 <= k < t.len() && t[k] == s[0];
    }
    if s.len() >= 2 {
        assert(s.contains(s[1]));
        assert(t.contains(s[1]));
        assert(s[1] == t[0]) by {
            let k = choose|k: int| 0 <= k < t.len() && t[k] == s[1];
        }
        assert(s[0] < s[1]);
        assert(false);
    }
}

/// Linear membership scan.
pub fn contains_val(v: &Vec<usize>, x: usize) -> (r: bool)
    ensures
        r == v@.contains(x),
{
    let n = v.len();
    let mut i: usize = 0;
    while i < n
        invariant
            n == v@.len(),
            i <= n,
            forall|k: int| 0 <= k < i ==> v@[k] != x,
        decreases n - i,
    {
        if v[i] == x {
            return true;
        }
        i += 1;
    }
    false
}

/// Copies a vector of indices.
pub fn copy_vec(v: &Vec<usize>) -> (r: Vec<usize>)
    ensures
        r@ == v@,
{
    let n = v.len();
    let mut r: Vec<usize> = Vec::new();
    let mut i: usize = 0;
    while i < n
        invariant
            n == v@.len(),
            i <= n,
            r@.len() == i,
            forall|k: int| 0 <= k < i ==> r@[k] == v@[k],
        decreases n - i,
    {
        r.push(v[i]);
        i += 1;
    }
    proof {
        assert(r@ =~= v@);
    }
    r
}

/// Inserts a fresh value into a strictly sorted vector, keeping it sorted.
pub fn insert_sorted(v: &mut Vec<usize>, x: usize)
    requires
        strictly_sorted(old(v)@),
        !old(v)@.contains(x),
        old(v)@.len() < usize::MAX,
    ensures
        strictly_sorted(final(v)@),
        final(v)@.len() == old(v)@.len() + 1,
        forall|e: usize| #[trigger] final(v)@.contains(e) <==> (old(v)@.contains(e) || e == x),
{
    let n = v.len();
    let mut pos: usize = 0;
    while pos < n && v[pos] < x
        invariant
            n == v@.len(),
            v@ == old(v)@,
            pos <= n,
            forall|k: int| 0 <= k < pos ==> v@[k] < x,
        decreases n - pos,
    {
        pos += 1;
    }
    proof {
        // the element at pos (if any) is greater than x, since x is absent
        if (pos as int) < v@.len() {
            assert(v@[pos as int] != x) by {
                assert(v@.contains(x) == false);
                assert(0 <= pos < v@.len() && v@[pos as int] == x ==> v@.contains(x));
            }
        }
    }
    let ghost oldv = v@;
    v.insert(pos, x);
    proof {
        assert forall|i: int, j: int| 0 <= i < j < v@.len() implies v@[i] < v@[j] by {
            if j < pos {
                assert(v@[i] == oldv[i] && v@[j] == oldv[j]);
            } else if i < pos && j == pos {
                assert(v@[i] == oldv[i] && v@[j] == x);
            } else if i < pos && j > pos {
                assert(v@[i] == oldv[i] && v@[j] == oldv[j - 1]);
                assert(oldv[i] < x);
                assert(x < oldv[j - 1]) by {
                    assert(oldv[pos as int] > x);
                    if j - 1 > pos {
                        assert(oldv[pos as int] < oldv[j - 1]);
                    }
                }
            } else if i == pos {
                assert(v@[i] == x && v@[j] == oldv[j - 1]);
                assert(oldv[pos as int] > x);
                if j - 1 > pos {
                    assert(oldv[pos as int] < oldv[j - 1]);
                }
            } else {
                assert(v@[i] == oldv[i - 1] && v@[j] == oldv[j - 1]);
            }
        }
        assert forall|e: usize| #[trigger] v@.contains(e) implies (oldv.contains(e) || e == x) by {
            let k = choose|k: int| 0 <= k < v@.len() && v@[k] == e;
            if k < pos {
                assert(oldv[k] == e);
            } else if k == pos {
            } else {
                assert(oldv[k - 1] == e);
            }
        }
        assert forall|e: usize| (oldv.contains(e) || e == x) implies #[trigger] v@.contains(e) by {
            if e == x {
                assert(v@[pos as int] == e);
            } else {
                let k = choose|k: int| 0 <= k < oldv.len() && oldv[k] == e;
                if k < pos {
                    assert(v@[k] == e);
                } else {
                    assert(v@[k + 1] == e);
                }
            }
        }
    }
}

/// The intersection of a strictly sorted vector with another vector,
/// in order.
pub fn intersect_sorted(a: &Vec<usize>, b: &Vec<usize>) -> (r: Vec<usize>)
    requires
        strictly_sorted(a@),
    ensures
        strictly_sorted(r@),
        r@.len() <= a@.len(),
        forall|e: usize| #[trigger] r@.contains(e) <==> (a@.contains(e) && b@.contains(e)),
{
    let n = a.len();
    let mut r: Vec<usize> = Vec::new();
    let mut i: usize = 0;
    while i < n
        invariant
            n == a@.len(),
            i <= n,
            r@.len() <= i,
            strictly_sorted(a@),
            strictly_sorted(r@),
            forall|m: int|
                0 <= m < r@.len() ==> exists|j: int| 0 <= j < i && #[trigger] r@[m] == a@[j],
            forall|e: usize|
                #[trigger] r@.contains(e) <==> (a@.subrange(0, i as int).contains(e)
                    && b@.contains(e)),
        decreases n - i,
    {
        let x = a[i];
        if contains_val(b, x) {
            let ghost oldr = r@;
            proof {
                // everything already in r comes from an earlier position of a
                assert forall|m: int| 0 <= m < oldr.len() implies oldr[m] < x by {
                    let j = choose|j: int| 0 <= j < i && oldr[m] == a@[j];
                    assert(a@[j] < a@[i as int]);
                }
            }
            r.push(x);
            proof {
                assert forall|e: usize| #[trigger] r@.contains(e) implies (a@.subrange(
                    0,
                    i as int + 1,
                ).contains(e) && b@.contains(e)) by {
                    let k = choose|k: int| 0 <= k < r@.len() && r@[k] == e;
                    if k < oldr.len() {
                        assert(oldr.contains(e));
                        let j = choose|j: int|
                            0 <= j < a@.subrange(0, i as int).len() && a@.subrange(0, i as int)[j]
                                == e;
                        assert(a@.subrange(0, i as int + 1)[j] == e);
                    } else {
                        assert(e == x);
                        assert(a@.subrange(0, i as int + 1)[i as int] == x);
                    }
                }
                assert forall|e: usize|
                    (a@.subrange(0, i as int + 1).contains(e) && b@.contains(e)) implies #[trigger] r@.contains(
                    e,
                ) by {
                    let j = choose|j: int|
                        0 <= j < i + 1 && #[trigger] a@.subrange(0, i as int + 1)[j] == e;
                    if j < i {
                        assert(a@.subrange(0, i as int)[j] == e);
                        assert(oldr.contains(e));
                        let k = choose|k: int| 0 <= k < oldr.len() && oldr[k] == e;
                        assert(r@[k] == e);
                    } else {
                        assert(e == x);
                        assert(r@[r@.len() - 1] == x);
                    }
                }
            }
        } else {
            proof {
                assert forall|e: usize| #[trigger] r@.contains(e) implies (a@.subrange(
                    0,
                    i as int + 1,
                ).contains(e) && b@.contains(e)) by {
                    assert(a@.subrange(0, i as int).contains(e) && b@.contains(e));
                    let j = choose|j: int|
                        0 <= j < a@.subrange(0, i as int).len() && a@.subrange(0, i as int)[j] == e;
                    assert(a@.subrange(0, i as int + 1)[j] == e);
                }
                assert forall|e: usize|
                    (a@.subrange(0, i as int + 1).contains(e) && b@.contains(e)) implies #[trigger] r@.contains(
                    e,
                ) by {
                    let j = choose|j: int|
                        0 <= j < i + 1 && #[trigger] a@.subrange(0, i as int + 1)[j] == e;
                    if j < i {
                        assert(a@.subrange(0, i as int)[j] == e);
                    } else {
                        assert(e == x && b@.contains(x));
                    }
                }
            }
        }
        i += 1;
    }
    proof {
        assert(a@.subrange(0, n as int) =~= a@);
    }
    r
}

} // verus!
