//! Strictly increasing sequences of indices: each finite set of indices has
//! exactly one.

use vstd::prelude::*;

verus! {

/// Strictly increasing.
pub open spec fn increasing(t: Seq<usize>) -> bool {
    forall|a: int, b: int| 0 <= a < b < t.len() ==> t[a] < t[b]
}

/// `x` put into the increasing sequence `s` at its place.
pub open spec fn insert_sorted(s: Seq<usize>, x: usize) -> Seq<usize>
    decreases s.len(),
{
    if s.len() == 0 {
        seq![x]
    } else if x < s[0] {
        seq![x] + s
    } else {
        seq![s[0]] + insert_sorted(s.drop_first(), x)
    }
}

/// The elements of `s` in increasing order.
pub open spec fn sort_seq(s: Seq<usize>) -> Seq<usize>
    decreases s.len(),
{
    if s.len() == 0 {
        s
    } else {
        insert_sorted(sort_seq(s.drop_last()), s.last())
    }
}

proof fn lemma_insert_sorted(s: Seq<usize>, x: usize)
    requires
        increasing(s),
        !s.contains(x),
    ensures
        increasing(insert_sorted(s, x)),
        insert_sorted(s, x).len() == s.len() + 1,
        forall|y: usize| #[trigger] insert_sorted(s, x).contains(y) <==> s.contains(y) || y == x,
    decreases s.len(),
{
    let r = insert_sorted(s, x);
    if s.len() == 0 {
        assert forall|y: usize| #[trigger] r.contains(y) <==> s.contains(y) || y == x by {
            if y == x {
                assert(r[0] == x);
            }
        }
    } else if x < s[0] {
        assert forall|y: usize| #[trigger] r.contains(y) <==> s.contains(y) || y == x by {
            if r.contains(y) {
                let k = choose|k: int| 0 <= k < r.len() && r[k] == y;
                if k > 0 {
                    assert(s[k - 1] == y);
                }
            }
            if s.contains(y) {
                let k = choose|k: int| 0 <= k < s.len() && s[k] == y;
                assert(r[k + 1] == y);
            }
            if y == x {
                assert(r[0] == x);
            }
        }
    } else {
        let d = s.drop_first();
        assert(!d.contains(x)) by {
            if d.contains(x) {
                let k = choose|k: int| 0 <= k < d.len() && d[k] == x;
                assert(s[k + 1] == x);
            }
        }
        lemma_insert_sorted(d, x);
        let rest = insert_sorted(d, x);
        assert(x != s[0]) by {
            assert(s[0] == s[0]);
            if x == s[0] {
                assert(s.contains(x));
            }
        }
        assert forall|y: usize| #[trigger] d.contains(y) <==> (s.contains(y) && y != s[0]) by {
            if d.contains(y) {
                let k = choose|k: int| 0 <= k < d.len() && d[k] == y;
                assert(s[k + 1] == y);
            }
            if s.contains(y) && y != s[0] {
                let k = choose|k: int| 0 <= k < s.len() && s[k] == y;
                assert(d[k - 1] == y);
            }
        }
        assert forall|b: int| 0 <= b < rest.len() implies s[0] < #[trigger] rest[b] by {
            assert(rest.contains(rest[b]));
            if rest[b] != x {
                let k = choose|k: int| 0 <= k < d.len() && d[k] == rest[b];
                assert(s[k + 1] == rest[b]);
            }
        }
        assert forall|a: int, b: int| 0 <= a < b < r.len() implies r[a] < r[b] by {
            assert(r[b] == rest[b - 1]);
            if a > 0 {
                assert(r[a] == rest[a - 1]);
            }
        }
        assert forall|y: usize| #[trigger] r.contains(y) <==> s.contains(y) || y == x by {
            if r.contains(y) {
                let k = choose|k: int| 0 <= k < r.len() && r[k] == y;
                if k > 0 {
                    assert(rest[k - 1] == y);
                    assert(rest.contains(y));
                    assert(d.contains(y) || y == x);
                } else {
                    assert(s[0] == y);
                }
            }
            if s.contains(y) || y == x {
                if y == s[0] {
                    assert(r[0] == y);
                } else {
                    assert(d.contains(y) || y == x);
                    assert(rest.contains(y));
                    let k = choose|k: int| 0 <= k < rest.len() && rest[k] == y;
                    assert(r[k + 1] == y);
                }
            }
        }
    }
}

/// A sequence of distinct indices has an increasing rearrangement.
pub proof fn lemma_sort_seq(s: Seq<usize>)
    requires
        s.no_duplicates(),
    ensures
        increasing(sort_seq(s)),
        sort_seq(s).len() == s.len(),
        forall|y: usize| #[trigger] sort_seq(s).contains(y) <==> s.contains(y),
    decreases s.len(),
{
    if s.len() > 0 {
        let d = s.drop_last();
        assert forall|y: usize| #[trigger] d.contains(y) implies s.contains(y) && y != s.last() by {
            if d.contains(y) {
                let k = choose|k: int| 0 <= k < d.len() && d[k] == y;
                assert(s[k] == y);
            }
        }
        lemma_sort_seq(d);
        lemma_insert_sorted(sort_seq(d), s.last());
        assert forall|y: usize| #[trigger] sort_seq(s).contains(y) <==> s.contains(y) by {
            if s.contains(y) && y != s.last() {
                let k = choose|k: int| 0 <= k < s.len() && s[k] == y;
                assert(d[k] == y);
            }
        }
    }
}

/// An increasing sequence is fixed by the set of its elements.
pub proof fn lemma_increasing_unique(s1: Seq<usize>, s2: Seq<usize>)
    requires
        increasing(s1),
        increasing(s2),
        forall|y: usize| s1.contains(y) <==> s2.contains(y),
    ensures
        s1 == s2,
    decreases s1.len(),
{
    if s1.len() == 0 {
        if s2.len() > 0 {
            assert(s2.contains(s2[0]));
        }
        assert(s1 =~= s2);
    } else if s2.len() == 0 {
        assert(s1.contains(s1[0]));
    } else {
        assert(s1.contains(s1[0]));
        assert(s2.contains(s2[0]));
        let j = choose|j: int| 0 <= j < s2.len() && s2[j] == s1[0];
        let i = choose|i: int| 0 <= i < s1.len() && s1[i] == s2[0];
        assert(s1[0] == s2[0]) by {
            if j > 0 {
                assert(s2[0] < s2[j]);
            }
            if i > 0 {
                assert(s1[0] < s1[i]);
            }
        }
        let d1 = s1.drop_first();
        let d2 = s2.drop_first();
        assert forall|y: usize| d1.contains(y) <==> d2.contains(y) by {
            if d1.contains(y) {
                let k = choose|k: int| 0 <= k < d1.len() && d1[k] == y;
                assert(s1[k + 1] == y);
                assert(s2.contains(y));
                let m = choose|m: int| 0 <= m < s2.len() && s2[m] == y;
                assert(m != 0);
                assert(d2[m - 1] == y);
            }
            if d2.contains(y) {
                let k = choose|k: int| 0 <= k < d2.len() && d2[k] == y;
                assert(s2[k + 1] == y);
                assert(s1.contains(y));
                let m = choose|m: int| 0 <= m < s1.len() && s1[m] == y;
                assert(m != 0);
                assert(d1[m - 1] == y);
            }
        }
        lemma_increasing_unique(d1, d2);
        assert(s1 =~= seq![s1[0]] + d1);
        assert(s2 =~= seq![s2[0]] + d2);
    }
}

} // verus!
