use bit_set::BitSet;
use five_words::{calculate_letter_frequencies, parse_word, Graph, Words};

fn word_list(list: &[&str]) -> Words {
    let mut words: Words = Vec::new();
    for w in list {
        let parsed = parse_word(w.to_string());
        assert!(parsed.is_some(), "not a word: {}", w);
        words.push(parsed.unwrap());
    }
    words
}

fn sorted_cliques(cliques: &Vec<Vec<String>>) -> Vec<Vec<String>> {
    let mut out: Vec<Vec<String>> = cliques
        .iter()
        .map(|c| {
            let mut c = c.clone();
            c.sort();
            c
        })
        .collect();
    out.sort();
    out
}

fn edge_count(g: &Graph) -> usize {
    let mut count = 0;
    for i in 0..g.len() {
        for j in 0..g.len() {
            if g.is_neighbor(i, j) {
                count += 1;
            }
        }
    }
    count / 2
}

const DISJOINT: [&str; 5] = ["abcde", "fghij", "klmno", "pqrst", "uvwxy"];

#[test]
fn five_disjoint_words_form_one_clique() {
    let words = word_list(&DISJOINT);
    let g = Graph::build_from_words(&words);
    assert_eq!(g.len(), 5);
    for i in 0..5 {
        for j in 0..5 {
            assert_eq!(g.is_neighbor(i, j), i != j);
        }
    }
    assert_eq!(edge_count(&g), 10);
    let cliques = g.search_for_cliques();
    assert_eq!(cliques.len(), 1);
    let expected: Vec<String> = DISJOINT.iter().map(|w| w.to_string()).collect();
    assert_eq!(cliques[0], expected);
}

#[test]
fn words_sharing_letters_have_no_edge() {
    let words = word_list(&["abcde", "abcxy"]);
    let g = Graph::build_from_words(&words);
    assert_eq!(g.len(), 2);
    assert!(!g.is_neighbor(0, 1));
    assert!(!g.is_neighbor(1, 0));
    assert_eq!(edge_count(&g), 0);
    assert!(g.search_for_cliques().is_empty());
    assert!(g.find_first_clique().is_none());
}

#[test]
fn near_duplicate_letter_sets_are_not_joined() {
    let words = word_list(&["abcde", "fghij", "aghij"]);
    let g = Graph::build_from_words(&words);
    assert!(g.is_neighbor(0, 1));
    assert!(g.is_neighbor(1, 0));
    assert!(!g.is_neighbor(1, 2));
    assert!(!g.is_neighbor(0, 2));
    assert_eq!(edge_count(&g), 1);
    assert!(g.search_for_cliques().is_empty());
}

#[test]
fn empty_word_list_gives_empty_graph() {
    let words: Words = Vec::new();
    let g = Graph::build_from_words(&words);
    assert_eq!(g.len(), 0);
    assert!(g.search_for_cliques().is_empty());
    assert!(g.find_first_clique().is_none());
}

#[test]
fn four_disjoint_words_give_no_clique() {
    let words = word_list(&["abcde", "fghij", "klmno", "pqrst", "abxyz"]);
    let g = Graph::build_from_words(&words);
    assert!(g.search_for_cliques().is_empty());
    assert!(g.find_first_clique().is_none());
}

#[test]
fn cliques_have_twenty_five_distinct_letters() {
    let words = word_list(&[
        "abcde", "fghij", "klmno", "pqrst", "uvwxy", "uvwxz", "zqrst", "vwxyz", "fghik",
    ]);
    let g = Graph::build_from_words(&words);
    let cliques = g.search_for_cliques();
    assert!(!cliques.is_empty());
    for clique in cliques.iter() {
        assert_eq!(clique.len(), 5);
        let mut letters: Vec<char> = clique.iter().flat_map(|w| w.chars()).collect();
        letters.sort();
        letters.dedup();
        assert_eq!(letters.len(), 25);
        let mut ws = clique.clone();
        ws.sort();
        ws.dedup();
        assert_eq!(ws.len(), 5);
    }
}

#[test]
fn two_cliques_found_in_vertex_order() {
    let words = word_list(&["abcde", "fghij", "klmno", "pqrst", "uvwxy", "uvwxz"]);
    let g = Graph::build_from_words(&words);
    let cliques = g.search_for_cliques();
    assert_eq!(
        cliques,
        vec![
            vec!["abcde", "fghij", "klmno", "pqrst", "uvwxy"],
            vec!["abcde", "fghij", "klmno", "pqrst", "uvwxz"],
        ]
        .into_iter()
        .map(|c| c.into_iter().map(String::from).collect::<Vec<String>>())
        .collect::<Vec<_>>()
    );
}

#[test]
fn search_twice_gives_same_cliques() {
    let list = [
        "abcde", "fghij", "klmno", "pqrst", "uvwxy", "uvwxz", "zqrst", "vwxyz", "fghik",
    ];
    let first = Graph::build_from_words(&word_list(&list)).search_for_cliques();
    let second = Graph::build_from_words(&word_list(&list)).search_for_cliques();
    assert_eq!(sorted_cliques(&first), sorted_cliques(&second));
}

#[test]
fn word_order_does_not_change_cliques() {
    let list = [
        "abcde", "fghij", "klmno", "pqrst", "uvwxy", "uvwxz", "zqrst", "vwxyz", "fghik",
    ];
    let mut reversed = list;
    reversed.reverse();
    let rotated = [
        "uvwxz", "zqrst", "vwxyz", "fghik", "abcde", "fghij", "klmno", "pqrst", "uvwxy",
    ];
    let a = Graph::build_from_words(&word_list(&list)).search_for_cliques();
    let b = Graph::build_from_words(&word_list(&reversed)).search_for_cliques();
    let c = Graph::build_from_words(&word_list(&rotated)).search_for_cliques();
    assert_eq!(sorted_cliques(&a).len(), 4);
    assert_eq!(sorted_cliques(&a), sorted_cliques(&b));
    assert_eq!(sorted_cliques(&a), sorted_cliques(&c));
}

#[test]
fn repeated_word_yields_clique_once() {
    let words = word_list(&["abcde", "fghij", "abcde", "klmno", "pqrst", "uvwxy", "fghij"]);
    let g = Graph::build_from_words(&words);
    assert_eq!(g.len(), 5);
    assert_eq!(g.word(2), "klmno");
    let cliques = g.search_for_cliques();
    assert_eq!(cliques.len(), 1);
}

#[test]
fn neighbours_are_symmetric_and_irreflexive() {
    let words = word_list(&[
        "abcde", "fghij", "aghij", "klmno", "pqrst", "uvwxy", "uvwxz", "bcdef",
    ]);
    let g = Graph::build_from_words(&words);
    for i in 0..g.len() {
        assert!(!g.is_neighbor(i, i));
        for j in 0..g.len() {
            assert_eq!(g.is_neighbor(i, j), g.is_neighbor(j, i));
        }
        assert!(!g.is_neighbor(i, g.len()));
    }
}

#[test]
fn first_clique_is_a_clique() {
    let words = word_list(&["abcde", "fghij", "klmno", "pqrst", "uvwxy", "uvwxz"]);
    let g = Graph::build_from_words(&words);
    let first = g.find_first_clique().unwrap();
    assert_eq!(first, vec!["abcde", "fghij", "klmno", "pqrst", "uvwxy"]);
}

#[test]
fn subtree_holds_cliques_starting_at_its_vertex() {
    let words = word_list(&["abcde", "fghij", "klmno", "pqrst", "uvwxy", "uvwxz"]);
    let g = Graph::build_from_words(&words);
    assert_eq!(
        g.search_subtree(0),
        vec![vec![0, 1, 2, 3, 4], vec![0, 1, 2, 3, 5]]
    );
    assert!(g.search_subtree(1).is_empty());
    assert_eq!(
        g.words_of(&vec![4, 0]),
        vec!["uvwxy".to_string(), "abcde".to_string()]
    );
}

#[test]
fn narrowing_keeps_only_neighbours() {
    let words = word_list(&["abcde", "fghij", "aghij", "klmno"]);
    let g = Graph::build_from_words(&words);
    let mut candidates: BitSet = (0..4).collect();
    g.intersection_(&mut candidates, 0);
    assert_eq!(candidates.iter().collect::<Vec<usize>>(), vec![1, 3]);
    g.intersection_(&mut candidates, 1);
    assert_eq!(candidates.iter().collect::<Vec<usize>>(), vec![3]);
}

#[test]
fn parse_word_accepts_five_distinct_lowercase_letters() {
    let (text, letters) = parse_word("crwth".to_string()).unwrap();
    assert_eq!(text, "crwth");
    let (_, other) = parse_word("abdef".to_string()).unwrap();
    assert!(letters.is_disjoint(&other));
    let (_, third) = parse_word("thing".to_string()).unwrap();
    assert!(!letters.is_disjoint(&third));
}

#[test]
fn parse_word_rejects_other_lines() {
    for line in ["", "abcd", "abcdef", "aabcd", "abcda", "Abcde", "abc1e", "abcdé", "ab de"] {
        assert!(parse_word(line.to_string()).is_none(), "accepted {:?}", line);
    }
}

#[test]
fn letter_frequencies_count_words_per_letter() {
    let words = word_list(&["abcde", "abfgh", "zyxwv"]);
    let freq = calculate_letter_frequencies(&words);
    let expected: Vec<(char, i64)> = vec![
        ('a', 2),
        ('b', 2),
        ('c', 1),
        ('d', 1),
        ('e', 1),
        ('f', 1),
        ('g', 1),
        ('h', 1),
        ('v', 1),
        ('w', 1),
        ('x', 1),
        ('y', 1),
        ('z', 1),
    ];
    assert_eq!(freq, expected);
    assert!(calculate_letter_frequencies(&Vec::new()).is_empty());
}
