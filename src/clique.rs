//! Enumeration of the cliques of five vertices by progressive neighbour
//! narrowing. Each clique is found once, as its vertices in increasing order.

use crate::bitset::{clear, empty_with_capacity, insert, members, to_sorted_vec, union_with};
use crate::graph::{lemma_not_self_compatible, views, Graph};
use crate::letters::compatible;
use crate::order::{increasing, lemma_increasing_unique, lemma_sort_seq, sort_seq};
use bit_set::BitSet;
use vstd::prelude::*;

verus! {

/// Every two vertices of `t`, the earlier one first, are neighbours.
pub open spec fn pairwise_adjacent(g: &Graph, t: Seq<usize>) -> bool {
    forall|a: int, b: int|
        0 <= a < b < t.len() ==> #[trigger] g.neighbors(t[a] as int).contains(#[trigger] t[b])
}

/// Five vertices of `g` in increasing order, pairwise neighbours.
pub open spec fn is_clique_tuple(g: &Graph, t: Seq<usize>) -> bool {
    &&& t.len() == 5
    &&& increasing(t)
    &&& forall|a: int| 0 <= a < t.len() ==> #[trigger] t[a] < g.vertices().len()
    &&& pairwise_adjacent(g, t)
}

/// The vertices that are neighbours of every vertex of `p`.
pub open spec fn common_neighbors(g: &Graph, p: Seq<usize>) -> Set<usize> {
    Set::new(
        |j: usize|
            j < g.vertices().len() && forall|a: int|
                0 <= a < p.len() ==> #[trigger] g.neighbors(p[a] as int).contains(j),
    )
}

/// The index tuples held in a vector of vectors.
pub open spec fn tuples(f: Seq<Vec<usize>>) -> Seq<Seq<usize>> {
    f.map_values(|t: Vec<usize>| t@)
}

/// The clique tuples that begin with `p`.
pub open spec fn extends(g: &Graph, p: Seq<usize>, t: Seq<usize>) -> bool {
    is_clique_tuple(g, t) && t.take(p.len() as int) == p
}

/// The words at the vertices of `t`, in the order of `t`.
pub open spec fn words_at(g: &Graph, t: Seq<usize>) -> Seq<Seq<char>> {
    t.map_values(|i: usize| g.vertices()[i as int])
}

/// `e` is the list of words of a clique of `g`, in increasing order of their
/// vertices.
pub open spec fn lists_clique(g: &Graph, e: Seq<Seq<char>>) -> bool {
    exists|t: Seq<usize>| is_clique_tuple(g, t) && e == words_at(g, t)
}

/// Some entry of `r` holds exactly the words `e`.
pub open spec fn has_entry(r: Seq<Vec<String>>, e: Seq<Seq<char>>) -> bool {
    exists|k: int| 0 <= k < r.len() && views(r[k]@) == e
}

/// Five words of `w`, every two of them compatible.
pub open spec fn five_compatible(w: Set<Seq<char>>, s: Seq<Seq<char>>) -> bool {
    &&& s.len() == 5
    &&& forall|i: int| 0 <= i < 5 ==> w.contains(#[trigger] s[i])
    &&& forall|i: int, j: int| 0 <= i < j < 5 ==> compatible(#[trigger] s[i], #[trigger] s[j])
}

/// `c` is a set of five pairwise compatible words of `w`.
pub open spec fn is_clique_in(w: Set<Seq<char>>, c: Set<Seq<char>>) -> bool {
    exists|s: Seq<Seq<char>>| five_compatible(w, s) && s.to_set() == c
}

/// The cliques of five words among `vs`, each as the set of its words.
pub open spec fn cliques_of(vs: Seq<Seq<char>>) -> Set<Set<Seq<char>>> {
    Set::new(|c: Set<Seq<char>>| is_clique_in(vs.to_set(), c))
}

/// The sets of words that the entries of `r` hold.
pub open spec fn clique_sets(r: Seq<Vec<String>>) -> Set<Set<Seq<char>>> {
    Set::new(|c: Set<Seq<char>>| exists|k: int| 0 <= k < r.len() && views(r[k]@).to_set() == c)
}

/// The words of a clique tuple are five pairwise compatible words of the graph.
pub proof fn lemma_tuple_words(g: &Graph, t: Seq<usize>)
    requires
        g.wf(),
        is_clique_tuple(g, t),
    ensures
        five_compatible(g.vertices().to_set(), words_at(g, t)),
{
    let v = g.vertices();
    let s = words_at(g, t);
    assert forall|i: int| 0 <= i < 5 implies v.to_set().contains(#[trigger] s[i]) by {
        assert(t[i] < v.len());
        assert(v.contains(v[t[i] as int]));
    }
    assert forall|i: int, j: int| 0 <= i < j < 5 implies compatible(#[trigger] s[i], #[trigger] s[j]) by {
        assert(g.neighbors(t[i] as int).contains(t[j]));
        assert(t[i] < v.len());
    }
}

/// Five pairwise compatible words of the graph are the words of a clique tuple.
pub proof fn lemma_words_tuple(g: &Graph, s: Seq<Seq<char>>)
    requires
        g.wf(),
        five_compatible(g.vertices().to_set(), s),
    ensures
        exists|t: Seq<usize>| is_clique_tuple(g, t) && words_at(g, t).to_set() == s.to_set(),
{
    let v = g.vertices();
    let idx = Seq::new(5, |i: int| (choose|x: int| 0 <= x < v.len() && v[x] == s[i]) as usize);
    assert forall|i: int| 0 <= i < 5 implies #[trigger] idx[i] < v.len() && v[idx[i] as int] == s[i] by {
        assert(v.to_set().contains(s[i]));
        assert(v.contains(s[i]));
        assert(v.len() <= usize::MAX) by {
            g.lemma_vertex_count();
        }
    }
    assert forall|i: int, j: int| 0 <= i < 5 && 0 <= j < 5 && i != j implies compatible(s[i], s[j]) by {
        if j < i {
            assert(compatible(s[j], s[i]));
            assert(s[j].to_set().disjoint(s[i].to_set()));
        }
    }
    assert(idx.no_duplicates()) by {
        assert forall|i: int, j: int| 0 <= i < j < 5 implies idx[i] != idx[j] by {
            assert(idx[i] < v.len());
            lemma_not_self_compatible(v[idx[i] as int]);
            assert(compatible(s[i], s[j]));
        }
    }
    lemma_sort_seq(idx);
    let t = sort_seq(idx);
    assert forall|a: int| 0 <= a < t.len() implies exists|i: int| 0 <= i < 5 && #[trigger] t[a] == idx[i] by {
        assert(t.contains(t[a]));
        assert(idx.contains(t[a]));
    }
    assert forall|a: int| 0 <= a < t.len() implies #[trigger] t[a] < v.len() by {
        let i = choose|i: int| 0 <= i < 5 && t[a] == idx[i];
    }
    assert forall|a: int, b: int|
        0 <= a < b < t.len() implies #[trigger] g.neighbors(t[a] as int).contains(#[trigger] t[b]) by {
        let i = choose|i: int| 0 <= i < 5 && t[a] == idx[i];
        let j = choose|j: int| 0 <= j < 5 && t[b] == idx[j];
        assert(t[a] < t[b]);
        assert(compatible(s[i], s[j]));
    }
    assert(is_clique_tuple(g, t));
    let w = words_at(g, t);
    assert forall|y: Seq<char>| w.to_set().contains(y) <==> s.to_set().contains(y) by {
        if w.contains(y) {
            let a = choose|a: int| 0 <= a < w.len() && w[a] == y;
            let i = choose|i: int| 0 <= i < 5 && t[a] == idx[i];
            assert(s[i] == y);
        }
        if s.contains(y) {
            let i = choose|i: int| 0 <= i < 5 && s[i] == y;
            assert(idx.contains(idx[i]));
            assert(t.contains(idx[i]));
            let a = choose|a: int| 0 <= a < t.len() && t[a] == idx[i];
            assert(w[a] == y);
        }
    }
    assert(w.to_set() =~= s.to_set());
}

/// Two clique tuples with the same set of words are the same tuple.
pub proof fn lemma_same_words_same_tuple(g: &Graph, t1: Seq<usize>, t2: Seq<usize>)
    requires
        g.wf(),
        is_clique_tuple(g, t1),
        is_clique_tuple(g, t2),
        words_at(g, t1).to_set() == words_at(g, t2).to_set(),
    ensures
        t1 == t2,
{
    let v = g.vertices();
    assert forall|y: usize| t1.contains(y) implies t2.contains(y) by {
        if t1.contains(y) {
            let a = choose|a: int| 0 <= a < t1.len() && t1[a] == y;
            assert(words_at(g, t1)[a] == v[y as int]);
            assert(words_at(g, t1).contains(v[y as int]));
            assert(words_at(g, t2).to_set().contains(v[y as int]));
            let b = choose|b: int| 0 <= b < t2.len() && words_at(g, t2)[b] == v[y as int];
            assert(v[t2[b] as int] == v[y as int]);
            assert(t2[b] < v.len());
            assert(t2[b] == y);
        }
    }
    assert forall|y: usize| t2.contains(y) implies t1.contains(y) by {
        if t2.contains(y) {
            let a = choose|a: int| 0 <= a < t2.len() && t2[a] == y;
            assert(words_at(g, t2)[a] == v[y as int]);
            assert(words_at(g, t2).contains(v[y as int]));
            assert(words_at(g, t1).to_set().contains(v[y as int]));
            let b = choose|b: int| 0 <= b < t1.len() && words_at(g, t1)[b] == v[y as int];
            assert(v[t1[b] as int] == v[y as int]);
            assert(t1[b] < v.len());
            assert(t1[b] == y);
        }
    }
    lemma_increasing_unique(t1, t2);
}

proof fn lemma_tuples_split(f: Seq<Vec<usize>>, h: Seq<Vec<usize>>, start: int)
    requires
        0 <= start <= f.len() <= h.len(),
        h.take(f.len() as int) == f,
    ensures
        tuples(h.skip(start)) == tuples(f.skip(start)) + tuples(h.skip(f.len() as int)),
{
    assert forall|x: int| 0 <= x < h.len() - start implies #[trigger] tuples(h.skip(start))[x] == (
    tuples(f.skip(start)) + tuples(h.skip(f.len() as int)))[x] by {
        if x < f.len() - start {
            assert(h[start + x] == h.take(f.len() as int)[start + x]);
        }
    }
    assert(tuples(h.skip(start)) =~= tuples(f.skip(start)) + tuples(h.skip(f.len() as int)));
}

proof fn lemma_no_duplicates_concat(a: Seq<Seq<usize>>, b: Seq<Seq<usize>>)
    requires
        a.no_duplicates(),
        b.no_duplicates(),
        forall|t: Seq<usize>| a.contains(t) ==> !b.contains(t),
    ensures
        (a + b).no_duplicates(),
        forall|t: Seq<usize>| #[trigger] (a + b).contains(t) <==> a.contains(t) || b.contains(t),
{
    let c = a + b;
    assert forall|x: int, y: int| 0 <= x < y < c.len() implies c[x] != c[y] by {
        if x < a.len() && y >= a.len() {
            assert(a.contains(c[x]));
            assert(b[y - a.len()] == c[y]);
        }
        if x >= a.len() {
            assert(b[x - a.len()] == c[x]);
            assert(b[y - a.len()] == c[y]);
        }
    }
    assert forall|t: Seq<usize>| #[trigger] c.contains(t) <==> a.contains(t) || b.contains(t) by {
        if c.contains(t) {
            let x = choose|x: int| 0 <= x < c.len() && c[x] == t;
            if x >= a.len() {
                assert(b[x - a.len()] == t);
            }
        }
        if a.contains(t) {
            let x = choose|x: int| 0 <= x < a.len() && a[x] == t;
            assert(c[x] == t);
        }
        if b.contains(t) {
            let x = choose|x: int| 0 <= x < b.len() && b[x] == t;
            assert(c[a.len() + x] == t);
        }
    }
}

impl Graph {
    /// Appends to `found` every clique tuple that begins with `prefix`, once
    /// each, given the common neighbours of `prefix` as `candidates`.
    fn extend(&self, prefix: &mut Vec<usize>, candidates: &BitSet, found: &mut Vec<Vec<usize>>)
        requires
            self.wf(),
            1 <= old(prefix)@.len() <= 4,
            increasing(old(prefix)@),
            forall|a: int| 0 <= a < old(prefix)@.len() ==> #[trigger] old(prefix)@[a] < self.vertices().len(),
            pairwise_adjacent(self, old(prefix)@),
            members(*candidates) == common_neighbors(self, old(prefix)@),
        ensures
            final(prefix)@ == old(prefix)@,
            final(found)@.len() >= old(found)@.len(),
            final(found)@.take(old(found)@.len() as int) == old(found)@,
            tuples(final(found)@.skip(old(found)@.len() as int)).no_duplicates(),
            forall|t: Seq<usize>|
                tuples(final(found)@.skip(old(found)@.len() as int)).contains(t) <==> extends(
                    self,
                    old(prefix)@,
                    t,
                ),
        decreases 5 - old(prefix)@.len(),
    {
        let ghost p = prefix@;
        let ghost k: int = p.len() as int;
        let ghost start = found@.len();
        let elems = to_sorted_vec(candidates);
        let last = prefix[prefix.len() - 1];
        let mut scratch = empty_with_capacity(self.len());
        let mut i: usize = 0;
        while i < elems.len()
            invariant
                self.wf(),
                prefix@ == p,
                k == p.len(),
                p == old(prefix)@,
                1 <= k <= 4,
                last == p[k - 1],
                increasing(p),
                forall|a: int| 0 <= a < p.len() ==> #[trigger] p[a] < self.vertices().len(),
                pairwise_adjacent(self, p),
                members(*candidates) == common_neighbors(self, p),
                increasing(elems@),
                elems@.to_set() == members(*candidates),
                0 <= i <= elems@.len(),
                found@.len() >= start,
                found@.take(start as int) == old(found)@,
                tuples(found@.skip(start as int)).no_duplicates(),
                forall|t: Seq<usize>|
                    #[trigger] tuples(found@.skip(start as int)).contains(t) <==> (extends(self, p, t)
                        && elems@.take(i as int).contains(t[k])),
            decreases elems@.len() - i,
        {
            let v = elems[i];
            let ghost before = found@;
            let ghost taken = elems@.take(i as int);
            proof {
                assert(forall|t: Seq<usize>|
                    #[trigger] tuples(before.skip(start as int)).contains(t) <==> (extends(self, p, t)
                        && taken.contains(t[k])));
                assert(elems@.contains(v));
                assert(elems@.to_set().contains(v));
                assert(elems@.take(i as int + 1) == taken.push(v));
                assert(!taken.contains(v)) by {
                    if taken.contains(v) {
                        let x = choose|x: int| 0 <= x < taken.len() && taken[x] == v;
                        assert(elems@[x] == v);
                    }
                }
                assert forall|x: usize| #[trigger] taken.push(v).contains(x) <==> (taken.contains(x)
                    || x == v) by {
                    if taken.push(v).contains(x) && x != v {
                        let y = choose|y: int| 0 <= y < taken.len() + 1 && taken.push(v)[y] == x;
                        assert(taken[y] == x);
                    }
                    if taken.contains(x) {
                        let y = choose|y: int| 0 <= y < taken.len() && taken[y] == x;
                        assert(taken.push(v)[y] == x);
                    }
                    assert(taken.push(v)[taken.len() as int] == v);
                }
            }
            if v > last {
                let ghost q = p.push(v);
                proof {
                    assert(q.take(k) == p);
                    assert forall|t: Seq<usize>| extends(self, q, t) <==> (extends(self, p, t) && t[k] == v) by {
                        if extends(self, p, t) && t[k] == v {
                            assert(t.take(k + 1) =~= q);
                        }
                        if extends(self, q, t) {
                            assert(t.take(k + 1)[k] == v);
                            assert(t.take(k) =~= t.take(k + 1).take(k));
                        }
                    }
                    assert forall|a: int, b: int| 0 <= a < b < q.len() implies #[trigger] self.neighbors(
                        q[a] as int,
                    ).contains(#[trigger] q[b]) by {
                        if b < k {
                            assert(q[a] == p[a] && q[b] == p[b]);
                        } else {
                            assert(q[a] == p[a]);
                        }
                    }
                }
                if prefix.len() == 4 {
                    let t = vec![prefix[0], prefix[1], prefix[2], prefix[3], v];
                    proof {
                        assert(t@ =~= q);
                        assert(extends(self, p, q));
                        assert forall|u: Seq<usize>| extends(self, p, u) && u[k] == v implies u == q by {
                            assert(extends(self, q, u));
                            assert(u =~= u.take(5));
                        }
                    }
                    found.push(t);
                    proof {
                        assert(found@.take(before.len() as int) =~= before);
                        let added = found@.skip(before.len() as int);
                        lemma_tuples_split(before, found@, start as int);
                        assert(tuples(added) =~= seq![q]);
                        assert forall|u: Seq<usize>| tuples(before.skip(start as int)).contains(u) implies !seq![q].contains(u) by {
                            if seq![q].contains(u) {
                                assert(seq![q][0] == u);
                            }
                        }
                        lemma_no_duplicates_concat(tuples(before.skip(start as int)), seq![q]);
                        assert forall|u: Seq<usize>| seq![q].contains(u) <==> u == q by {
                            if u == q {
                                assert(seq![q][0] == u);
                            }
                        }
                        let earlier = tuples(before.skip(start as int));
                        assert forall|u: Seq<usize>|
                            tuples(found@.skip(start as int)).contains(u) <==> (extends(self, p, u)
                                && elems@.take(i as int + 1).contains(u[k])) by {
                            assert(earlier + seq![q] == tuples(found@.skip(start as int)));
                            assert((earlier + seq![q]).contains(u) <==> earlier.contains(u) || seq![q].contains(u));
                            assert(q[k] == v);
                            assert(earlier.contains(u) <==> (extends(self, p, u) && taken.contains(u[k])));
                            assert(seq![q].contains(u) <==> u == q);
                            assert(extends(self, p, q));
                            assert(taken.push(v).contains(u[k]) <==> (taken.contains(u[k]) || u[k] == v));
                            if extends(self, p, u) && u[k] == v {
                                assert(extends(self, q, u));
                                assert(u.take(5) =~= u);
                            }
                        }
                    }
                } else {
                    clear(&mut scratch);
                    union_with(&mut scratch, candidates);
                    self.intersection_(&mut scratch, v);
                    proof {
                        assert(members(scratch) =~= common_neighbors(self, q)) by {
                            assert forall|j: usize| members(scratch).contains(j) <==> common_neighbors(self, q).contains(j) by {
                                if common_neighbors(self, q).contains(j) {
                                    assert(self.neighbors(q[k] as int).contains(j));
                                    assert forall|a: int| 0 <= a < p.len() implies #[trigger] self.neighbors(p[a] as int).contains(j) by {
                                        assert(q[a] == p[a]);
                                    }
                                }
                                if members(scratch).contains(j) {
                                    assert forall|a: int| 0 <= a < q.len() implies #[trigger] self.neighbors(q[a] as int).contains(j) by {
                                        if a < k {
                                            assert(q[a] == p[a]);
                                        }
                                    }
                                }
                            }
                        }
                    }
                    prefix.push(v);
                    assert(prefix@.len() == k + 1);
                    self.extend(prefix, &scratch, found);
                    prefix.pop();
                    proof {
                        lemma_tuples_split(before, found@, start as int);
                        let added = tuples(found@.skip(before.len() as int));
                        let earlier = tuples(before.skip(start as int));
                        assert forall|u: Seq<usize>| earlier.contains(u) implies !added.contains(u) by {
                            if added.contains(u) {
                                assert(extends(self, q, u));
                                assert(u[k] == v);
                            }
                        }
                        lemma_no_duplicates_concat(earlier, added);
                        assert forall|u: Seq<usize>|
                            tuples(found@.skip(start as int)).contains(u) <==> (extends(self, p, u)
                                && elems@.take(i as int + 1).contains(u[k])) by {
                            assert(earlier + added == tuples(found@.skip(start as int)));
                            assert((earlier + added).contains(u) <==> earlier.contains(u) || added.contains(u));
                            assert(added.contains(u) <==> extends(self, q, u));
                            assert(extends(self, q, u) <==> (extends(self, p, u) && u[k] == v));
                            assert(earlier.contains(u) <==> (extends(self, p, u) && taken.contains(u[k])));
                            assert(taken.push(v).contains(u[k]) <==> (taken.contains(u[k]) || u[k] == v));
                        }
                    }
                }
            } else {
                proof {
                    assert forall|t: Seq<usize>| extends(self, p, t) implies t[k] != v by {
                        assert(t[k - 1] == t.take(k)[k - 1]);
                    }
                    assert forall|u: Seq<usize>|
                        tuples(found@.skip(start as int)).contains(u) <==> (extends(self, p, u)
                            && elems@.take(i as int + 1).contains(u[k])) by {
                        assert(taken.push(v).contains(u[k]) <==> (taken.contains(u[k]) || u[k] == v));
                        assert(found@ == before);
                        if extends(self, p, u) {
                            assert(u[k] != v);
                        }
                    }
                }
            }
            i += 1;
        }
        proof {
            assert(elems@.take(elems@.len() as int) == elems@);
            assert forall|t: Seq<usize>| extends(self, p, t) implies elems@.contains(t[k]) by {
                assert forall|a: int| 0 <= a < p.len() implies #[trigger] self.neighbors(p[a] as int).contains(t[k]) by {
                    assert(t[a] == t.take(k)[a]);
                }
                assert(common_neighbors(self, p).contains(t[k]));
                assert(elems@.to_set().contains(t[k]));
            }
        }
    }
}

impl Graph {
    /// The set of every vertex.
    fn all_vertices(&self) -> (r: BitSet)
        requires
            self.wf(),
        ensures
            forall|j: usize| #[trigger] members(r).contains(j) <==> j < self.vertices().len(),
    {
        let n = self.len();
        let mut all = empty_with_capacity(n);
        let mut j: usize = 0;
        while j < n
            invariant
                n == self.vertices().len(),
                0 <= j <= n,
                forall|x: usize| #[trigger] members(all).contains(x) <==> x < j,
            decreases n - j,
        {
            insert(&mut all, j);
            j += 1;
        }
        all
    }

    /// The cliques whose first vertex, the lowest, is `word_0`: one subtree
    /// of the search, independent of every other.
    pub fn search_subtree(&self, word_0: usize) -> (r: Vec<Vec<usize>>)
        requires
            self.wf(),
            word_0 < self.vertices().len(),
        ensures
            tuples(r@).no_duplicates(),
            forall|t: Seq<usize>|
                #[trigger] tuples(r@).contains(t) <==> is_clique_tuple(self, t) && t[0] == word_0,
    {
        let mut candidates = self.all_vertices();
        self.intersection_(&mut candidates, word_0);
        let mut prefix: Vec<usize> = Vec::new();
        prefix.push(word_0);
        let mut found: Vec<Vec<usize>> = Vec::new();
        proof {
            assert(members(candidates) =~= common_neighbors(self, prefix@)) by {
                assert forall|j: usize| common_neighbors(self, prefix@).contains(j) implies members(candidates).contains(j) by {
                    assert(self.neighbors(prefix@[0] as int).contains(j));
                }
            }
        }
        self.extend(&mut prefix, &candidates, &mut found);
        proof {
            assert(found@.skip(0) == found@);
            assert(found@.take(0) =~= Seq::<Vec<usize>>::empty());
            assert forall|t: Seq<usize>| extends(self, seq![word_0], t) <==> is_clique_tuple(self, t) && t[0] == word_0 by {
                if is_clique_tuple(self, t) && t[0] == word_0 {
                    assert(t.take(1) =~= seq![word_0]);
                }
                if extends(self, seq![word_0], t) {
                    assert(t.take(1)[0] == t[0]);
                }
            }
            assert(prefix@ =~= seq![word_0]);
        }
        found
    }

    /// The words at the vertices of `t`, in the order of `t`.
    pub fn words_of(&self, t: &Vec<usize>) -> (r: Vec<String>)
        requires
            self.wf(),
            forall|a: int| 0 <= a < t@.len() ==> #[trigger] t@[a] < self.vertices().len(),
        ensures
            views(r@) == words_at(self, t@),
    {
        let mut r: Vec<String> = Vec::new();
        let mut a: usize = 0;
        while a < t.len()
            invariant
                self.wf(),
                forall|x: int| 0 <= x < t@.len() ==> #[trigger] t@[x] < self.vertices().len(),
                0 <= a <= t@.len(),
                views(r@) == words_at(self, t@.take(a as int)),
            decreases t@.len() - a,
        {
            let w = self.word(t[a]).clone();
            let ghost prev = r@;
            r.push(w);
            proof {
                let now = words_at(self, t@.take(a as int + 1));
                assert(views(prev).len() == prev.len());
                assert(words_at(self, t@.take(a as int)).len() == a);
                assert(r@.len() == a + 1);
                assert forall|x: int| 0 <= x <= a implies views(r@)[x] == now[x] by {
                    assert(views(r@)[x] == r@[x]@);
                    assert(t@.take(a as int + 1)[x] == t@[x]);
                    assert(now[x] == self.vertices()[t@[x] as int]);
                    if x < a {
                        assert(t@.take(a as int)[x] == t@[x]);
                        assert(views(prev).len() == prev.len());
                        assert(words_at(self, t@.take(a as int)).len() == a);
                        assert(r@[x] == prev[x]);
                        assert(views(prev)[x] == prev[x]@);
                        assert(words_at(self, t@.take(a as int))[x] == now[x]);
                    }
                }
                assert(views(r@).len() == now.len());
                assert(views(r@) =~= now);
            }
            a += 1;
        }
        proof {
            assert(t@.take(t@.len() as int) == t@);
        }
        r
    }

    /// Every clique of five vertices, as its words in increasing order of
    /// their vertices, each clique once.
    pub fn search_for_cliques(&self) -> (r: Vec<Vec<String>>)
        requires
            self.wf(),
        ensures
            forall|k: int| 0 <= k < r@.len() ==> lists_clique(self, views(#[trigger] r@[k]@)),
            forall|t: Seq<usize>| is_clique_tuple(self, t) ==> has_entry(r@, words_at(self, t)),
            forall|k1: int, k2: int|
                0 <= k1 < k2 < r@.len() ==> views(#[trigger] r@[k1]@).to_set() != views(
                    #[trigger] r@[k2]@,
                ).to_set(),
            clique_sets(r@) == cliques_of(self.vertices()),
    {
        let n = self.len();
        let mut out: Vec<Vec<String>> = Vec::new();
        let ghost mut ts: Seq<Seq<usize>> = Seq::empty();
        let mut word_0: usize = 0;
        while word_0 < n
            invariant
                self.wf(),
                n == self.vertices().len(),
                0 <= word_0 <= n,
                out@.len() == ts.len(),
                forall|k: int| 0 <= k < ts.len() ==> views(#[trigger] out@[k]@) == words_at(self, ts[k]),
                ts.no_duplicates(),
                forall|t: Seq<usize>| #[trigger] ts.contains(t) <==> is_clique_tuple(self, t) && t[0] < word_0,
            decreases n - word_0,
        {
            let sub = self.search_subtree(word_0);
            let ghost ts0 = ts;
            let mut j: usize = 0;
            while j < sub.len()
                invariant
                    self.wf(),
                    n == self.vertices().len(),
                    0 <= word_0 < n,
                    0 <= j <= sub@.len(),
                    out@.len() == ts.len(),
                    forall|k: int| 0 <= k < ts.len() ==> views(#[trigger] out@[k]@) == words_at(self, ts[k]),
                    ts == ts0 + tuples(sub@).take(j as int),
                    ts.no_duplicates(),
                    tuples(sub@).no_duplicates(),
                    forall|t: Seq<usize>|
                        #[trigger] tuples(sub@).contains(t) <==> is_clique_tuple(self, t) && t[0] == word_0,
                    forall|t: Seq<usize>| #[trigger] ts0.contains(t) <==> is_clique_tuple(self, t) && t[0] < word_0,
                decreases sub@.len() - j,
            {
                let t = &sub[j];
                proof {
                    assert(tuples(sub@)[j as int] == t@);
                    assert(tuples(sub@).contains(t@));
                }
                let w = self.words_of(t);
                out.push(w);
                proof {
                    let tj = tuples(sub@).take(j as int);
                    assert(tuples(sub@).take(j as int + 1) =~= tj.push(t@));
                    assert(!ts.contains(t@)) by {
                        if ts.contains(t@) {
                            let x = choose|x: int| 0 <= x < ts.len() && ts[x] == t@;
                            if x < ts0.len() {
                                assert(ts0.contains(t@));
                            } else {
                                assert(tuples(sub@)[x - ts0.len()] == t@);
                            }
                        }
                    }
                    ts = ts.push(t@);
                    assert(ts =~= ts0 + tuples(sub@).take(j as int + 1));
                }
                j += 1;
            }
            proof {
                assert(tuples(sub@).take(sub@.len() as int) =~= tuples(sub@));
                assert forall|t: Seq<usize>| #[trigger] ts.contains(t) <==> is_clique_tuple(self, t) && t[0] < word_0 + 1 by {
                    lemma_no_duplicates_concat(ts0, tuples(sub@));
                }
                lemma_no_duplicates_concat(ts0, tuples(sub@));
            }
            word_0 += 1;
        }
        proof {
            assert forall|t: Seq<usize>| is_clique_tuple(self, t) implies has_entry(out@, words_at(self, t)) by {
                assert(ts.contains(t));
                let k = choose|k: int| 0 <= k < ts.len() && ts[k] == t;
                assert(views(out@[k]@) == words_at(self, t));
            }
            assert forall|k: int| 0 <= k < out@.len() implies lists_clique(self, views(#[trigger] out@[k]@)) by {
                assert(ts.contains(ts[k]));
            }
            assert forall|k1: int, k2: int| 0 <= k1 < k2 < out@.len() implies views(
                #[trigger] out@[k1]@,
            ).to_set() != views(#[trigger] out@[k2]@).to_set() by {
                assert(ts.contains(ts[k1]));
                assert(ts.contains(ts[k2]));
                if views(out@[k1]@).to_set() == views(out@[k2]@).to_set() {
                    lemma_same_words_same_tuple(self, ts[k1], ts[k2]);
                }
            }
            let w = self.vertices().to_set();
            assert forall|c: Set<Seq<char>>| clique_sets(out@).contains(c) <==> cliques_of(
                self.vertices(),
            ).contains(c) by {
                if clique_sets(out@).contains(c) {
                    let k = choose|k: int| 0 <= k < out@.len() && views(out@[k]@).to_set() == c;
                    assert(ts.contains(ts[k]));
                    lemma_tuple_words(self, ts[k]);
                    assert(five_compatible(w, views(out@[k]@)));
                }
                if cliques_of(self.vertices()).contains(c) {
                    let sw = choose|sw: Seq<Seq<char>>| five_compatible(w, sw) && sw.to_set() == c;
                    lemma_words_tuple(self, sw);
                    let t = choose|t: Seq<usize>|
                        is_clique_tuple(self, t) && words_at(self, t).to_set() == sw.to_set();
                    assert(has_entry(out@, words_at(self, t)));
                    let k = choose|k: int| 0 <= k < out@.len() && views(out@[k]@) == words_at(self, t);
                    assert(views(out@[k]@).to_set() == c);
                }
            }
            assert(clique_sets(out@) =~= cliques_of(self.vertices()));
        }
        out
    }
}

impl Graph {
    /// The first clique found, walking the first vertex upwards: `None` exactly
    /// when the graph has no clique of five vertices.
    pub fn find_first_clique(&self) -> (r: Option<Vec<String>>)
        requires
            self.wf(),
        ensures
            r is Some <==> exists|t: Seq<usize>| is_clique_tuple(self, t),
            r matches Some(e) ==> lists_clique(self, views(e@)),
    {
        let n = self.len();
        let mut word_0: usize = 0;
        while word_0 < n
            invariant
                self.wf(),
                n == self.vertices().len(),
                0 <= word_0 <= n,
                forall|t: Seq<usize>| is_clique_tuple(self, t) ==> t[0] >= word_0,
            decreases n - word_0,
        {
            let sub = self.search_subtree(word_0);
            if sub.len() > 0 {
                let t = &sub[0];
                proof {
                    assert(tuples(sub@)[0] == t@);
                    assert(tuples(sub@).contains(t@));
                    assert(is_clique_tuple(self, t@));
                }
                let e = self.words_of(t);
                return Some(e);
            }
            proof {
                assert forall|t: Seq<usize>| is_clique_tuple(self, t) implies t[0] >= word_0 + 1 by {
                    if t[0] == word_0 {
                        assert(tuples(sub@).contains(t));
                        let k = choose|k: int| 0 <= k < tuples(sub@).len() && tuples(sub@)[k] == t;
                    }
                }
            }
            word_0 += 1;
        }
        proof {
            assert forall|t: Seq<usize>| !is_clique_tuple(self, t) by {
                if is_clique_tuple(self, t) {
                    assert(t[0] < n);
                }
            }
        }
        None
    }
}

} // verus!
