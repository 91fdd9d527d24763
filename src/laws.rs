//! What holds of every search: the laws of the cliques it reports.

use crate::clique::{
    clique_sets, cliques_of, five_compatible, is_clique_tuple, lemma_tuple_words,
    lemma_words_tuple, lists_clique, words_at,
};
use crate::graph::{dedup, lemma_dedup, Graph};
use crate::letters::{compatible, is_word, texts, LetterSet};
use vstd::prelude::*;

verus! {

/// A reported clique is five distinct words, every two of them with no letter
/// in common, and its twenty-five letters are all different.
pub proof fn lemma_clique_letters(g: &Graph, e: Seq<Seq<char>>)
    requires
        g.wf(),
        lists_clique(g, e),
    ensures
        e.len() == 5,
        e.no_duplicates(),
        forall|a: int, b: int| 0 <= a < b < 5 ==> compatible(#[trigger] e[a], #[trigger] e[b]),
        forall|a: int, i: int, b: int, j: int|
            0 <= a < 5 && 0 <= i < 5 && 0 <= b < 5 && 0 <= j < 5 && (a != b || i != j) ==> #[trigger] e[a][i]
                != #[trigger] e[b][j],
{
    let t = choose|t: Seq<usize>| is_clique_tuple(g, t) && e == words_at(g, t);
    lemma_tuple_words(g, t);
    let v = g.vertices();
    assert forall|a: int| 0 <= a < 5 implies is_word(#[trigger] e[a]) by {
        assert(t[a] < v.len());
        assert(e[a] == v[t[a] as int]);
    }
    assert forall|a: int, i: int, b: int, j: int|
        0 <= a < 5 && 0 <= i < 5 && 0 <= b < 5 && 0 <= j < 5 && (a != b || i != j) implies #[trigger] e[a][i]
            != #[trigger] e[b][j] by {
        assert(is_word(e[a]) && is_word(e[b]));
        if a != b {
            assert(e[a].to_set().contains(e[a][i]));
            assert(e[b].to_set().contains(e[b][j]));
            if a < b {
                assert(compatible(e[a], e[b]));
            } else {
                assert(compatible(e[b], e[a]));
            }
        }
    }
    assert forall|a: int, b: int| 0 <= a < b < 5 implies e[a] != e[b] by {
        assert(e[a][0] != e[b][0]);
    }
}

/// Running the search twice on one word list gives the same cliques.
pub proof fn lemma_search_repeatable(
    words: Seq<(String, LetterSet)>,
    g1: &Graph,
    g2: &Graph,
    r1: Seq<Vec<String>>,
    r2: Seq<Vec<String>>,
)
    requires
        g1.wf(),
        g2.wf(),
        g1.vertices() == dedup(texts(words)),
        g2.vertices() == dedup(texts(words)),
        clique_sets(r1) == cliques_of(g1.vertices()),
        clique_sets(r2) == cliques_of(g2.vertices()),
    ensures
        clique_sets(r1) == clique_sets(r2),
{
}

/// The cliques do not depend on the order of the word list: any
/// rearrangement of it has the same cliques.
pub proof fn lemma_order_invariant(w1: Seq<(String, LetterSet)>, w2: Seq<(String, LetterSet)>)
    requires
        texts(w1).to_multiset() == texts(w2).to_multiset(),
    ensures
        cliques_of(dedup(texts(w1))) == cliques_of(dedup(texts(w2))),
{
    let s1 = texts(w1);
    let s2 = texts(w2);
    s1.to_multiset_ensures();
    s2.to_multiset_ensures();
    lemma_dedup(s1);
    lemma_dedup(s2);
    assert(dedup(s1).to_set() =~= dedup(s2).to_set()) by {
        assert forall|x: Seq<char>| s1.contains(x) <==> s2.contains(x) by {
            assert(s1.to_multiset().count(x) == s2.to_multiset().count(x));
        }
    }
    assert(cliques_of(dedup(s1)) =~= cliques_of(dedup(s2)));
}

/// A graph with fewer than five vertices has no clique of five.
pub proof fn lemma_small_graph_no_clique(g: &Graph)
    requires
        g.wf(),
        g.vertices().len() < 5,
    ensures
        cliques_of(g.vertices()) == Set::<Set<Seq<char>>>::empty(),
{
    let w = g.vertices().to_set();
    assert forall|c: Set<Seq<char>>| !cliques_of(g.vertices()).contains(c) by {
        if cliques_of(g.vertices()).contains(c) {
            let s = choose|s: Seq<Seq<char>>| five_compatible(w, s) && s.to_set() == c;
            lemma_words_tuple(g, s);
            let t = choose|t: Seq<usize>| is_clique_tuple(g, t) && words_at(g, t).to_set() == s.to_set();
            assert(t[0] < t[1] && t[1] < t[2] && t[2] < t[3] && t[3] < t[4]);
            assert(t[4] < g.vertices().len());
        }
    }
    assert(cliques_of(g.vertices()) =~= Set::<Set<Seq<char>>>::empty());
}

/// Without five mutually letter-disjoint words there is no clique.
pub proof fn lemma_no_five_disjoint_no_clique(vs: Seq<Seq<char>>)
    requires
        forall|s: Seq<Seq<char>>| !five_compatible(vs.to_set(), s),
    ensures
        cliques_of(vs) == Set::<Set<Seq<char>>>::empty(),
{
    assert(cliques_of(vs) =~= Set::<Set<Seq<char>>>::empty());
}

} // verus!
