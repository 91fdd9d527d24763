//! Five words, twenty-five distinct letters: builds the graph of letter-disjoint
//! five-letter words and enumerates its cliques of five vertices.

mod bitset;
mod clique;
mod graph;
mod laws;
mod letters;
mod order;

pub use bitset::members;
pub use clique::{
    clique_sets, cliques_of, common_neighbors, extends, five_compatible, has_entry, is_clique_in,
    is_clique_tuple, lemma_same_words_same_tuple, lemma_tuple_words, lemma_words_tuple,
    lists_clique, pairwise_adjacent, tuples, words_at,
};
pub use graph::{
    dedup, lemma_dedup, lemma_neighbors_symmetric, lemma_not_self_compatible, views, Graph,
};
pub use laws::{
    lemma_clique_letters, lemma_no_five_disjoint_no_clique, lemma_order_invariant,
    lemma_search_repeatable, lemma_small_graph_no_clique,
};
pub use letters::{
    calculate_letter_frequencies, compatible, has_letter, is_lower, is_word, letter_sets,
    parse_word, sets_containing, texts, well_formed, LetterSet, Words,
};
pub use order::{increasing, insert_sorted, lemma_increasing_unique, lemma_sort_seq, sort_seq};
