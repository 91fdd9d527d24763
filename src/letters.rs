//! Words of five distinct lowercase letters, and their letter sets.

use vstd::prelude::*;

verus! {

/// A lowercase letter of the alphabet `a`..=`z`.
pub open spec fn is_lower(c: char) -> bool {
    'a' <= c && c <= 'z'
}

/// A word that the search takes: five distinct lowercase letters.
pub open spec fn is_word(w: Seq<char>) -> bool {
    &&& w.len() == 5
    &&& forall|i: int| 0 <= i < w.len() ==> is_lower(#[trigger] w[i])
    &&& w.no_duplicates()
}

/// Two words are compatible when they have no letter in common.
pub open spec fn compatible(a: Seq<char>, b: Seq<char>) -> bool {
    a.to_set().disjoint(b.to_set())
}

/// The distinct letters of a word.
pub struct LetterSet {
    letters: Vec<char>,
}

impl View for LetterSet {
    type V = Set<char>;

    closed spec fn view(&self) -> Set<char> {
        self.letters@.to_set()
    }
}

impl LetterSet {
    #[verifier::type_invariant]
    spec fn inv(self) -> bool {
        self.letters@.no_duplicates()
    }

    /// Whether the two sets have no letter in common.
    pub fn is_disjoint(&self, other: &LetterSet) -> (r: bool)
        ensures
            r == self@.disjoint(other@),
    {
        let mut i: usize = 0;
        while i < self.letters.len()
            invariant
                0 <= i <= self.letters@.len(),
                forall|a: int, b: int|
                    0 <= a < i && 0 <= b < other.letters@.len() ==> self.letters@[a]
                        != other.letters@[b],
            decreases self.letters@.len() - i,
        {
            let mut j: usize = 0;
            while j < other.letters.len()
                invariant
                    0 <= i < self.letters@.len(),
                    0 <= j <= other.letters@.len(),
                    forall|b: int| 0 <= b < j ==> self.letters@[i as int] != other.letters@[b],
                decreases other.letters@.len() - j,
            {
                if self.letters[i] == other.letters[j] {
                    assert(self@.contains(self.letters@[i as int]));
                    assert(other@.contains(other.letters@[j as int]));
                    return false;
                }
                j += 1;
            }
            i += 1;
        }
        proof {
            assert forall|c: char| self@.contains(c) implies !other@.contains(c) by {
                let a = choose|a: int| 0 <= a < self.letters@.len() && self.letters@[a] == c;
                if other@.contains(c) {
                    let b = choose|b: int| 0 <= b < other.letters@.len() && other.letters@[b] == c;
                }
            }
        }
        true
    }
}

/// Reads a line of the word list: a word of five distinct lowercase letters is
/// kept together with its letter set; anything else is left out.
pub fn parse_word(word: String) -> (r: Option<(String, LetterSet)>)
    ensures
        r is Some <==> is_word(word@),
        r matches Some(e) ==> e.0@ == word@ && e.1@ == word@.to_set(),
{
    let n = word.as_str().unicode_len();
    if n != 5 {
        return None;
    }
    let mut letters: Vec<char> = Vec::new();
    let mut i: usize = 0;
    while i < 5
        invariant
            word@.len() == 5,
            0 <= i <= 5,
            letters@ == word@.take(i as int),
            letters@.no_duplicates(),
            forall|k: int| 0 <= k < i ==> is_lower(#[trigger] word@[k]),
        decreases 5 - i,
    {
        let c = word.as_str().get_char(i);
        if !('a' <= c && c <= 'z') {
            assert(!is_word(word@));
            return None;
        }
        let mut j: usize = 0;
        while j < letters.len()
            invariant
                0 <= j <= letters@.len(),
                letters@ == word@.take(i as int),
                word@.len() == 5,
                i < 5,
                c == word@[i as int],
                forall|k: int| 0 <= k < j ==> letters@[k] != c,
            decreases letters@.len() - j,
        {
            if letters[j] == c {
                assert(word@[j as int] == word@[i as int]);
                assert(!is_word(word@));
                return None;
            }
            j += 1;
        }
        letters.push(c);
        i += 1;
    }
    assert(letters@ == word@);
    let set = LetterSet { letters };
    Some((word, set))
}

/// The word list that the search takes: each word beside its letter set.
pub type Words = Vec<(String, LetterSet)>;

/// The texts of a word list.
pub open spec fn texts(words: Seq<(String, LetterSet)>) -> Seq<Seq<char>> {
    words.map_values(|e: (String, LetterSet)| e.0@)
}

/// The letter sets of a word list.
pub open spec fn letter_sets(words: Seq<(String, LetterSet)>) -> Seq<Set<char>> {
    words.map_values(|e: (String, LetterSet)| e.1@)
}

/// A list whose every entry is a word beside its own letter set.
pub open spec fn well_formed(words: Seq<(String, LetterSet)>) -> bool {
    forall|i: int|
        0 <= i < words.len() ==> is_word(#[trigger] words[i].0@) && words[i].1@
            == words[i].0@.to_set()
}

/// How many of the letter sets hold `c`.
pub open spec fn sets_containing(sets: Seq<Set<char>>, c: char) -> nat
    decreases sets.len(),
{
    if sets.len() == 0 {
        0
    } else {
        sets_containing(sets.drop_last(), c) + if sets.last().contains(c) {
            1nat
        } else {
            0nat
        }
    }
}

proof fn lemma_sets_containing_bound(sets: Seq<Set<char>>, c: char)
    ensures
        sets_containing(sets, c) <= sets.len(),
    decreases sets.len(),
{
    if sets.len() > 0 {
        lemma_sets_containing_bound(sets.drop_last(), c);
    }
}

/// Whether a table of letter counts has an entry for `c`.
pub open spec fn has_letter(table: Seq<(char, i64)>, c: char) -> bool {
    exists|k: int| 0 <= k < table.len() && table[k].0 == c
}

/// For each letter that some word holds, the number of words that hold it:
/// one entry per such letter, in increasing order of the letters.
pub fn calculate_letter_frequencies(words: &Words) -> (r: Vec<(char, i64)>)
    requires
        words@.len() <= i64::MAX,
    ensures
        forall|a: int, b: int| 0 <= a < b < r@.len() ==> r@[a].0 < r@[b].0,
        forall|k: int|
            0 <= k < r@.len() ==> r@[k].1 == sets_containing(letter_sets(words@), r@[k].0) as int,
        forall|c: char|
            sets_containing(letter_sets(words@), c) > 0 <==> has_letter(r@, c),
{
    let mut freq: Vec<(char, i64)> = Vec::new();
    let ghost sets = letter_sets(words@);
    let mut i: usize = 0;
    while i < words.len()
        invariant
            0 <= i <= words@.len() <= i64::MAX,
            sets == letter_sets(words@),
            forall|a: int, b: int|
                0 <= a < b < freq@.len() ==> freq@[a].0 < freq@[b].0,
            forall|k: int|
                0 <= k < freq@.len() ==> freq@[k].1 == sets_containing(
                    sets.take(i as int),
                    freq@[k].0,
                ) as int,
            forall|c: char|
                sets_containing(sets.take(i as int), c) > 0 <==> has_letter(freq@, c),
        decreases words@.len() - i,
    {
        let entry = &words[i];
        let letters = &entry.1.letters;
        proof {
            use_type_invariant(&entry.1);
            assert(sets.take(i as int + 1).drop_last() == sets.take(i as int));
            assert(sets[i as int] == letters@.to_set());
            lemma_sets_containing_bound(sets.take(i as int + 1), 'a');
        }
        let ghost before = sets.take(i as int);
        proof {
            assert forall|c: char| #[trigger] sets_containing(before, c) <= i by {
                lemma_sets_containing_bound(before, c);
            }
        }
        let mut j: usize = 0;
        while j < letters.len()
            invariant
                0 <= i < words@.len() <= i64::MAX,
                0 <= j <= letters@.len(),
                letters@.no_duplicates(),
                sets == letter_sets(words@),
                before == sets.take(i as int),
                forall|c: char| #[trigger] sets_containing(before, c) <= i,
                forall|a: int, b: int|
                    0 <= a < b < freq@.len() ==> freq@[a].0 < freq@[b].0,
                forall|k: int|
                    0 <= k < freq@.len() ==> freq@[k].1 == sets_containing(before, freq@[k].0)
                        + if letters@.take(j as int).contains(freq@[k].0) {
                        1int
                    } else {
                        0int
                    },
                forall|c: char|
                    (sets_containing(before, c) > 0 || letters@.take(j as int).contains(c))
                        <==> has_letter(freq@, c),
            decreases letters@.len() - j,
        {
            let c = letters[j];
            proof {
                lemma_sets_containing_bound(before, c);
                assert(letters@.take(j as int + 1) == letters@.take(j as int).push(c));
                assert(!letters@.take(j as int).contains(c));
            }
            let mut p: usize = 0;
            while p < freq.len() && freq[p].0 < c
                invariant
                    0 <= p <= freq@.len(),
                    forall|k: int| 0 <= k < p ==> freq@[k].0 < c,
                decreases freq@.len() - p,
            {
                p += 1;
            }
            let ghost prev = freq@;
            let ghost now = letters@.take(j as int + 1);
            proof {
                assert forall|x: char| #[trigger] now.contains(x)
                    <==> (letters@.take(j as int).contains(x) || x == c) by {
                    if x == c {
                        assert(now[j as int] == c);
                    }
                    if letters@.take(j as int).contains(x) {
                        let t = choose|t: int| 0 <= t < j && letters@.take(j as int)[t] == x;
                        assert(now[t] == x);
                    }
                }
            }
            if p < freq.len() && freq[p].0 == c {
                let old_count = freq[p].1;
                freq.set(p, (c, old_count + 1));
                proof {
                    assert(freq@[p as int].0 == c);
                    assert(has_letter(freq@, c));
                    assert forall|x: char| has_letter(prev, x) <==> has_letter(freq@, x) by {
                        if has_letter(prev, x) {
                            let k = choose|k: int| 0 <= k < prev.len() && prev[k].0 == x;
                            assert(freq@[k].0 == x);
                        }
                        if has_letter(freq@, x) {
                            let k = choose|k: int| 0 <= k < freq@.len() && freq@[k].0 == x;
                            assert(prev[k].0 == x);
                        }
                    }
                    assert forall|k: int| 0 <= k < freq@.len() implies freq@[k].1 == sets_containing(
                        before,
                        freq@[k].0,
                    ) + if now.contains(freq@[k].0) {
                        1int
                    } else {
                        0int
                    } by {
                        if k != p {
                            assert(freq@[k] == prev[k]);
                            assert(prev[k].0 != prev[p as int].0);
                        }
                    }
                }
            } else {
                freq.insert(p, (c, 1));
                proof {
                    assert(freq@[p as int].0 == c);
                    assert(!has_letter(prev, c)) by {
                        if has_letter(prev, c) {
                            let k = choose|k: int| 0 <= k < prev.len() && prev[k].0 == c;
                            if k > p {
                                assert(prev[p as int].0 < prev[k].0);
                            }
                        }
                    }
                    assert forall|k: int| 0 <= k < prev.len() implies (k < p ==> freq@[k] == prev[k]) && (
                    k >= p ==> freq@[k + 1] == prev[k]) by {}
                    assert forall|x: char| x != c implies (has_letter(prev, x) <==> has_letter(freq@, x)) by {
                        if has_letter(prev, x) {
                            let k = choose|k: int| 0 <= k < prev.len() && prev[k].0 == x;
                            if k < p {
                                assert(freq@[k].0 == x);
                            } else {
                                assert(freq@[k + 1].0 == x);
                            }
                        }
                        if has_letter(freq@, x) {
                            let k = choose|k: int| 0 <= k < freq@.len() && freq@[k].0 == x;
                            if k < p {
                                assert(prev[k].0 == x);
                            } else {
                                assert(prev[k - 1].0 == x);
                            }
                        }
                    }
                    assert(has_letter(freq@, c));
                    assert forall|k: int| 0 <= k < freq@.len() implies freq@[k].1 == sets_containing(
                        before,
                        freq@[k].0,
                    ) + if now.contains(freq@[k].0) {
                        1int
                    } else {
                        0int
                    } by {
                        if k < p {
                            assert(freq@[k] == prev[k]);
                        } else if k > p {
                            assert(freq@[k] == prev[k - 1]);
                        }
                    }
                    assert forall|a: int, b: int|
                        0 <= a < b < freq@.len() implies freq@[a].0 < freq@[b].0 by {
                        if b < p {
                        } else if a > p {
                            assert(freq@[a] == prev[a - 1]);
                            assert(freq@[b] == prev[b - 1]);
                        } else if a == p {
                            assert(freq@[b] == prev[b - 1]);
                            if b - 1 > p {
                                assert(prev[p as int].0 < prev[b - 1].0);
                            }
                        } else if b == p {
                        } else {
                            assert(freq@[b] == prev[b - 1]);
                        }
                    }
                }
            }
            proof {
                assert forall|x: char|
                    (sets_containing(before, x) > 0 || now.contains(x)) <==> #[trigger] has_letter(
                        freq@,
                        x,
                    ) by {
                    assert(now.contains(x) <==> (letters@.take(j as int).contains(x) || x == c));
                    if x != c {
                        assert((sets_containing(before, x) > 0 || letters@.take(j as int).contains(x))
                            <==> has_letter(prev, x));
                        assert(has_letter(prev, x) <==> has_letter(freq@, x));
                    }
                }
            }
            j += 1;
        }
        proof {
            assert(letters@.take(j as int) == letters@);
            assert forall|c: char|
                sets_containing(sets.take(i as int + 1), c) == sets_containing(before, c) + if letters@.contains(c) {
                    1int
                } else {
                    0int
                } by {
                assert(sets.take(i as int + 1).drop_last() == before);
                assert(sets.take(i as int + 1).last() == letters@.to_set());
            }
        }
        i += 1;
    }
    assert(sets.take(words@.len() as int) == sets);
    freq
}

} // verus!
