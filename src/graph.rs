//! The compatibility graph: one vertex per distinct word, an edge between two
//! words with no letter in common, each vertex's neighbours held in a bit set.

use crate::bitset::{contains, empty_with_capacity, insert, intersect_with, members};
use crate::letters::{compatible, is_word, texts, well_formed, Words};
use bit_set::BitSet;
use vstd::prelude::*;

verus! {

/// The texts of a vector of strings.
pub open spec fn views(ws: Seq<String>) -> Seq<Seq<char>> {
    ws.map_values(|w: String| w@)
}

/// The words of `s` in order of first appearance, each once.
pub open spec fn dedup(s: Seq<Seq<char>>) -> Seq<Seq<char>>
    decreases s.len(),
{
    if s.len() == 0 {
        Seq::empty()
    } else {
        let p = dedup(s.drop_last());
        if p.contains(s.last()) {
            p
        } else {
            p.push(s.last())
        }
    }
}

/// Dropping repeated words keeps every word once and adds none.
pub proof fn lemma_dedup(s: Seq<Seq<char>>)
    ensures
        dedup(s).no_duplicates(),
        dedup(s).to_set() == s.to_set(),
        forall|x: Seq<char>| dedup(s).contains(x) <==> s.contains(x),
    decreases s.len(),
{
    if s.len() > 0 {
        let q = s.drop_last();
        lemma_dedup(q);
        assert forall|x: Seq<char>| dedup(s).contains(x) <==> s.contains(x) by {
            if s.contains(x) && x != s.last() {
                let k = choose|k: int| 0 <= k < s.len() && s[k] == x;
                assert(q[k] == x);
            }
            if q.contains(x) {
                let k = choose|k: int| 0 <= k < q.len() && q[k] == x;
                assert(s[k] == x);
            }
            if !dedup(q).contains(s.last()) {
                let d = dedup(q).push(s.last());
                if d.contains(x) && x != s.last() {
                    let k = choose|k: int| 0 <= k < d.len() && d[k] == x;
                    assert(dedup(q)[k] == x);
                }
                if dedup(q).contains(x) {
                    let k = choose|k: int| 0 <= k < dedup(q).len() && dedup(q)[k] == x;
                    assert(d[k] == x);
                }
                assert(d[d.len() - 1] == s.last());
            }
        }
        assert(dedup(s).to_set() =~= s.to_set());
    } else {
        assert(dedup(s).to_set() =~= s.to_set());
    }
}

/// Two distinct words of the search always differ in at least one letter:
/// a word is never compatible with itself.
pub proof fn lemma_not_self_compatible(w: Seq<char>)
    requires
        is_word(w),
    ensures
        !compatible(w, w),
{
    assert(w.to_set().contains(w[0]));
}

/// Vertex `i` is `words[i]`; `edges[i]` holds its neighbours.
pub struct Graph {
    edges: Vec<BitSet>,
    words: Vec<String>,
}

impl Graph {
    /// The words at the vertices, by index.
    pub closed spec fn vertices(&self) -> Seq<Seq<char>> {
        views(self.words@)
    }

    /// The neighbours of vertex `i`.
    pub closed spec fn neighbors(&self, i: int) -> Set<usize> {
        members(self.edges@[i])
    }

    /// Every vertex has a neighbour set.
    pub closed spec fn shape(&self) -> bool {
        self.edges@.len() == self.words@.len() && self.words@.len() <= usize::MAX
    }

    /// The graph's invariant: distinct words of five distinct lowercase
    /// letters, and an edge exactly between compatible words.
    pub open spec fn wf(&self) -> bool {
        let v = self.vertices();
        &&& self.shape()
        &&& v.no_duplicates()
        &&& forall|i: int| 0 <= i < v.len() ==> is_word(#[trigger] v[i])
        &&& forall|i: int, j: usize|
            0 <= i < v.len() ==> (#[trigger] self.neighbors(i).contains(j) <==> (j < v.len()
                && compatible(v[i], v[j as int])))
    }

    /// Builds the graph of a word list. A word that appears more than once
    /// becomes one vertex; vertices keep the order of first appearance.
    pub fn build_from_words(words: &Words) -> (g: Graph)
        requires
            well_formed(words@),
            words@.len() < usize::MAX,
        ensures
            g.wf(),
            g.vertices() == dedup(texts(words@)),
    {
        let ghost ts = texts(words@);
        let mut keep: Vec<usize> = Vec::new();
        let mut uniq: Vec<String> = Vec::new();
        let mut i: usize = 0;
        while i < words.len()
            invariant
                0 <= i <= words@.len(),
                ts == texts(words@),
                views(uniq@) == dedup(ts.take(i as int)),
                keep@.len() == uniq@.len() <= i,
                forall|k: int| 0 <= k < keep@.len() ==> #[trigger] keep@[k] < words@.len() && ts[keep@[k] as int] == uniq@[k]@,
            decreases words@.len() - i,
        {
            let text = &words[i].0;
            let mut found = false;
            let mut k: usize = 0;
            while k < uniq.len() && !found
                invariant
                    0 <= k <= uniq@.len(),
                    found ==> k < uniq@.len() && uniq@[k as int]@ == text@,
                    !found ==> forall|a: int| 0 <= a < k ==> uniq@[a]@ != text@,
                decreases uniq@.len() - k + if found { 0int } else { 1int },
            {
                if uniq[k] == *text {
                    found = true;
                } else {
                    k += 1;
                }
            }
            proof {
                assert(ts.take(i as int + 1).drop_last() == ts.take(i as int));
                assert(ts[i as int] == text@);
                if found {
                    assert(views(uniq@)[k as int] == text@);
                } else {
                    assert forall|a: int| 0 <= a < uniq@.len() implies views(uniq@)[a] != text@ by {
                        assert(views(uniq@)[a] == uniq@[a]@);
                    }
                    assert(!views(uniq@).contains(text@));
                }
            }
            if !found {
                uniq.push(text.clone());
                keep.push(i);
                proof {
                    assert(views(uniq@) =~= dedup(ts.take(i as int)).push(text@));
                }
            }
            i += 1;
        }
        proof {
            assert(ts.take(words@.len() as int) == ts);
            lemma_dedup(ts);
        }
        let n = uniq.len();
        let mut edges: Vec<BitSet> = Vec::new();
        let mut a: usize = 0;
        while a < n
            invariant
                0 <= a <= n == uniq@.len() == keep@.len() <= words@.len() < usize::MAX,
                well_formed(words@),
                ts == texts(words@),
                forall|k: int| 0 <= k < keep@.len() ==> #[trigger] keep@[k] < words@.len() && ts[keep@[k] as int] == uniq@[k]@,
                edges@.len() == a,
                forall|x: int, j: usize|
                    0 <= x < a ==> (#[trigger] members(edges@[x]).contains(j) <==> (j < n
                        && compatible(uniq@[x]@, uniq@[j as int]@))),
            decreases n - a,
        {
            let first = &words[keep[a]].1;
            let mut nb = empty_with_capacity(n);
            let mut b: usize = 0;
            while b < n
                invariant
                    0 <= a < n,
                    0 <= b <= n == uniq@.len() == keep@.len() <= words@.len() < usize::MAX,
                    well_formed(words@),
                    ts == texts(words@),
                    forall|k: int| 0 <= k < keep@.len() ==> #[trigger] keep@[k] < words@.len() && ts[keep@[k] as int] == uniq@[k]@,
                    first@ == uniq@[a as int]@.to_set(),
                    forall|j: usize|
                        #[trigger] members(nb).contains(j) <==> (j < b && compatible(
                            uniq@[a as int]@,
                            uniq@[j as int]@,
                        )),
                decreases n - b,
            {
                let second = &words[keep[b]].1;
                proof {
                    assert(ts[keep@[b as int] as int] == words@[keep@[b as int] as int].0@);
                    assert(ts[keep@[a as int] as int] == words@[keep@[a as int] as int].0@);
                }
                if first.is_disjoint(second) {
                    insert(&mut nb, b);
                }
                b += 1;
            }
            edges.push(nb);
            proof {
                assert forall|x: int, j: usize|
                    0 <= x < a + 1 implies (#[trigger] members(edges@[x]).contains(j) <==> (j < n
                        && compatible(uniq@[x]@, uniq@[j as int]@))) by {
                    if x < a {
                    }
                }
            }
            a += 1;
        }
        let g = Graph { edges, words: uniq };
        proof {
            assert forall|x: int| 0 <= x < n implies is_word(#[trigger] g.vertices()[x]) by {
                assert(g.vertices()[x] == ts[keep@[x] as int]);
                assert(ts[keep@[x] as int] == words@[keep@[x] as int].0@);
            }
        }
        g
    }

    /// The vertex count fits in a `usize`.
    pub proof fn lemma_vertex_count(&self)
        requires
            self.wf(),
        ensures
            self.vertices().len() <= usize::MAX,
    {
    }

    /// The number of vertices.
    pub fn len(&self) -> (r: usize)
        requires
            self.wf(),
        ensures
            r == self.vertices().len(),
    {
        self.words.len()
    }

    /// The word at vertex `i`.
    pub fn word(&self, i: usize) -> (r: &String)
        requires
            self.wf(),
            i < self.vertices().len(),
        ensures
            r@ == self.vertices()[i as int],
    {
        &self.words[i]
    }

    /// Whether `j` is a neighbour of vertex `i`.
    pub fn is_neighbor(&self, i: usize, j: usize) -> (r: bool)
        requires
            self.wf(),
            i < self.vertices().len(),
        ensures
            r == self.neighbors(i as int).contains(j),
    {
        contains(&self.edges[i], j)
    }

    /// Narrows a candidate set to the neighbours of vertex `word_index`.
    pub fn intersection_(&self, neighbors: &mut BitSet, word_index: usize)
        requires
            self.wf(),
            word_index < self.vertices().len(),
        ensures
            members(*final(neighbors)) == members(*old(neighbors)).intersect(
                self.neighbors(word_index as int),
            ),
    {
        intersect_with(neighbors, &self.edges[word_index]);
    }
}

/// The graph is undirected: `j` is a neighbour of `i` exactly when `i` is a
/// neighbour of `j`, and no vertex is its own neighbour.
pub proof fn lemma_neighbors_symmetric(g: &Graph, i: usize, j: usize)
    requires
        g.wf(),
        i < g.vertices().len(),
        j < g.vertices().len(),
    ensures
        g.neighbors(i as int).contains(j) == g.neighbors(j as int).contains(i),
        !g.neighbors(i as int).contains(i),
{
    let v = g.vertices();
    assert(g.neighbors(i as int).contains(j) == compatible(v[i as int], v[j as int]));
    assert(g.neighbors(j as int).contains(i) == compatible(v[j as int], v[i as int]));
    assert(compatible(v[i as int], v[j as int]) == compatible(v[j as int], v[i as int]));
    assert(g.neighbors(i as int).contains(i) == compatible(v[i as int], v[i as int]));
    lemma_not_self_compatible(v[i as int]);
}

} // verus!
