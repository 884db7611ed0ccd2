//! The word list: the words that can be guesses or answers.
use vstd::prelude::*;
use std::collections::HashMap;

use crate::error::SolverError;
use crate::parse::{is_word_text, parse_word, spells, word_error, word_from_chars, lemma_spells_unique};
use crate::text::{chars_of, string_of_range, trim, trim_range};
use crate::word::{count_letters, counts_of, is_word, lemma_word_key_injective, word_key, word_key_spec, LetterCounts, Word};

verus! {

broadcast use vstd::std_specs::hash::group_hash_axioms;

/// The loaded word list, with each word's letter counts and an index from a
/// word's key to its position.
pub struct Dictionary {
    words: Vec<Word>,
    counts: Vec<LetterCounts>,
    lookup: HashMap<u32, usize>,
}

/// `i` is the last position of `words` whose word has key `key`.
pub open spec fn last_index_of_key(words: Seq<Word>, key: int, i: int) -> bool {
    &&& 0 <= i < words.len()
    &&& word_key_spec(words[i]) == key
    &&& forall|j: int| i < j < words.len() ==> word_key_spec(#[trigger] words[j]) != key
}

/// `lookup` maps exactly the keys of `words`, each to the last position that
/// holds a word with that key.
pub open spec fn lookup_of(lookup: Map<u32, usize>, words: Seq<Word>) -> bool {
    &&& forall|k: u32|
        #[trigger] lookup.contains_key(k) <==> exists|i: int|
            0 <= i < words.len() && word_key_spec(#[trigger] words[i]) == k
    &&& forall|k: u32| #[trigger]
        lookup.contains_key(k) ==> last_index_of_key(words, k as int, lookup[k] as int)
}

/// The pieces of `s[start..]` between newline characters, where the piece
/// being read began at `start` and reading has reached `i`.
pub open spec fn lines_from(s: Seq<char>, start: int, i: int) -> Seq<Seq<char>>
    decreases s.len() - i,
{
    if i >= s.len() {
        seq![s.subrange(start, s.len() as int)]
    } else if s[i] == '\n' {
        seq![s.subrange(start, i)] + lines_from(s, i + 1, i + 1)
    } else {
        lines_from(s, start, i + 1)
    }
}

/// The pieces of `s` between newline characters.
pub open spec fn lines(s: Seq<char>) -> Seq<Seq<char>> {
    lines_from(s, 0, 0)
}

/// The trimmed pieces that are not empty: the entries of a word list.
pub open spec fn entries_of(pieces: Seq<Seq<char>>) -> Seq<Seq<char>> {
    pieces.map_values(|p: Seq<char>| trim(p)).filter(|e: Seq<char>| e.len() > 0)
}

/// The entries of the word list `text`: its lines, trimmed, without the
/// empty ones.
pub open spec fn word_entries(text: Seq<char>) -> Seq<Seq<char>> {
    entries_of(lines(text))
}

/// `words` spells, one word per entry, the entries `entries`.
pub open spec fn spells_all(words: Seq<Word>, entries: Seq<Seq<char>>) -> bool {
    &&& words.len() == entries.len()
    &&& forall|i: int| 0 <= i < entries.len() ==> spells(#[trigger] words[i], entries[i])
}

proof fn lemma_entries_push(pieces: Seq<Seq<char>>, p: Seq<char>)
    ensures
        entries_of(pieces.push(p)) == if trim(p).len() > 0 {
            entries_of(pieces).push(trim(p))
        } else {
            entries_of(pieces)
        },
{
    let f = |q: Seq<char>| trim(q);
    let pred = |e: Seq<char>| e.len() > 0;
    let mapped = pieces.push(p).map_values(f);
    assert(mapped.drop_last() =~= pieces.map_values(f));
    assert(mapped.last() == trim(p));
    reveal_with_fuel(Seq::filter, 1);
}

proof fn lemma_entries_add(a: Seq<Seq<char>>, b: Seq<Seq<char>>)
    ensures
        entries_of(a + b) == entries_of(a) + entries_of(b),
{
    let f = |q: Seq<char>| trim(q);
    let pred = |e: Seq<char>| e.len() > 0;
    assert((a + b).map_values(f) =~= a.map_values(f) + b.map_values(f));
    Seq::filter_distributes_over_add(a.map_values(f), b.map_values(f), pred);
}

impl View for Dictionary {
    type V = Seq<Word>;

    closed spec fn view(&self) -> Seq<Word> {
        self.words@
    }
}

/// After `w` is appended to `words` and its key bound to its position,
/// the lookup again maps each key to the last position holding it.
proof fn lemma_lookup_push(
    lookup: Map<u32, usize>,
    words: Seq<Word>,
    w: Word,
    key: u32,
    new_lookup: Map<u32, usize>,
    pos: usize,
)
    requires
        lookup_of(lookup, words),
        key == word_key_spec(w),
        pos == words.len(),
        new_lookup == lookup.insert(key, pos),
    ensures
        lookup_of(new_lookup, words.push(w)),
{
    let nw = words.push(w);
    assert forall|k: u32| #[trigger] new_lookup.contains_key(k) <==> exists|i: int|
        0 <= i < nw.len() && word_key_spec(#[trigger] nw[i]) == k by {
        if k == key {
            assert(word_key_spec(nw[words.len() as int]) == k);
        } else {
            if lookup.contains_key(k) {
                let i = choose|i: int| 0 <= i < words.len() && word_key_spec(#[trigger] words[i]) == k;
                assert(nw[i] == words[i]);
            }
            if exists|i: int| 0 <= i < nw.len() && word_key_spec(#[trigger] nw[i]) == k {
                let i = choose|i: int| 0 <= i < nw.len() && word_key_spec(#[trigger] nw[i]) == k;
                assert(i < words.len());
                assert(nw[i] == words[i]);
            }
        }
    }
    assert forall|k: u32| #[trigger] new_lookup.contains_key(k) implies last_index_of_key(nw, k as int, new_lookup[k] as int) by {
        if k != key {
            let p = lookup[k] as int;
            assert(last_index_of_key(words, k as int, p));
            assert(nw[p] == words[p]);
            assert forall|j: int| p < j < nw.len() implies word_key_spec(#[trigger] nw[j]) != k as int by {
                if j < words.len() {
                    assert(nw[j] == words[j]);
                }
            }
        }
    }
}

/// Every entry of the word list `text` is a five-letter lowercase word.
pub open spec fn is_word_list(text: Seq<char>) -> bool {
    forall|k: int| 0 <= k < word_entries(text).len() ==> is_word_text(#[trigger] word_entries(text)[k])
}

impl Dictionary {
    #[verifier::type_invariant]
    closed spec fn well_formed(self) -> bool {
        &&& self.words.len() == self.counts.len()
        &&& forall|i: int| 0 <= i < self.words.len() ==> is_word(#[trigger] self.words[i])
        &&& forall|i: int|
            0 <= i < self.words.len() ==> counts_of(#[trigger] self.counts[i], self.words[i])
        &&& lookup_of(self.lookup@, self.words@)
    }

    /// Reads a word list that holds only words: one word per line, lines
    /// trimmed, empty lines skipped.
    pub fn load(text: &str) -> (dict: Dictionary)
        requires
            is_word_list(text@),
        ensures
            spells_all(dict@, word_entries(text@)),
    {
        match Dictionary::try_load(text) {
            Ok(dict) => dict,
            Err(_) => {
                proof {
                    let k = choose|k: int|
                        0 <= k < word_entries(text@).len() && !is_word_text(
                            #[trigger] word_entries(text@)[k],
                        );
                    assert(is_word_text(word_entries(text@)[k]));
                }
                unreached()
            },
        }
    }

    /// Reads a word list, checking it first: one word per line, lines
    /// trimmed, empty lines skipped. A line that is no five-letter word is
    /// refused, the first such line with the error that reading it as a word
    /// gives.
    pub fn try_load(text: &str) -> (res: Result<Dictionary, SolverError>)
        ensures
            res is Ok <==> is_word_list(text@),
            match res {
                Ok(dict) => spells_all(dict@, word_entries(text@)),
                Err(e) => exists|k: int|
                    0 <= k < word_entries(text@).len() && (forall|j: int|
                        0 <= j < k ==> is_word_text(#[trigger] word_entries(text@)[j]))
                        && !is_word_text(#[trigger] word_entries(text@)[k]) && word_error(
                        word_entries(text@)[k],
                        word_entries(text@)[k],
                        e,
                    ),
            },
    {
        let ghost s = text@;
        let chars = chars_of(text);
        let n = chars.len();
        let mut words: Vec<Word> = Vec::new();
        let mut counts: Vec<LetterCounts> = Vec::new();
        let mut lookup: HashMap<u32, usize> = HashMap::new();
        let ghost mut done: Seq<Seq<char>> = Seq::empty();
        let mut line_start: usize = 0;
        let mut i: usize = 0;
        loop
            invariant_except_break
                lines(s) == done + lines_from(s, line_start as int, i as int),
            invariant
                s == text@,
                chars@ == s,
                n == s.len(),
                line_start <= i <= n,
                forall|e: int| 0 <= e < entries_of(done).len() ==> is_word_text(#[trigger] entries_of(done)[e]),
                spells_all(words@, entries_of(done)),
                words.len() == counts.len(),
                forall|j: int| 0 <= j < words.len() ==> is_word(#[trigger] words@[j]),
                forall|j: int| 0 <= j < words.len() ==> counts_of(#[trigger] counts@[j], words@[j]),
                lookup_of(lookup@, words@),
            ensures
                lines(s) == done,
                forall|e: int| 0 <= e < entries_of(done).len() ==> is_word_text(#[trigger] entries_of(done)[e]),
                spells_all(words@, entries_of(done)),
                words.len() == counts.len(),
                forall|j: int| 0 <= j < words.len() ==> is_word(#[trigger] words@[j]),
                forall|j: int| 0 <= j < words.len() ==> counts_of(#[trigger] counts@[j], words@[j]),
                lookup_of(lookup@, words@),
            decreases n - i,
        {
            if i == n || chars[i] == '\n' {
                let ghost piece = s.subrange(line_start as int, i as int);
                proof {
                    if i == n {
                        assert(lines_from(s, line_start as int, i as int) == seq![piece]);
                    } else {
                        assert(lines_from(s, line_start as int, i as int) == seq![piece] + lines_from(s, i + 1, i + 1));
                    }
                    lemma_entries_push(done, piece);
                }
                let (a, b) = trim_range(&chars, line_start, i);
                if a < b {
                    match word_from_chars(&chars, a, b) {
                        Ok(w) => {
                            let key = word_key(&w);
                            let pos = words.len();
                            let ghost old_words = words@;
                            let ghost old_lookup = lookup@;
                            words.push(w);
                            counts.push(count_letters(&w));
                            lookup.insert(key, pos);
                            proof {
                                assert(words@ == old_words.push(w));
                                lemma_lookup_push(old_lookup, old_words, w, key, lookup@, pos);
                            }
                        },
                        Err(fault) => {
                            let entry = string_of_range(&chars, a, b);
                            proof {
                                let k = entries_of(done).len() as int;
                                assert(entries_of(done.push(piece))[k] == trim(piece));
                                let rest = lines_from(s, i + 1, i + 1);
                                if i == n {
                                    assert(lines(s) =~= done.push(piece) + Seq::empty());
                                    lemma_entries_add(done.push(piece), Seq::empty());
                                    assert(entries_of(Seq::<Seq<char>>::empty()) =~= Seq::<Seq<char>>::empty()) by {
                                        reveal_with_fuel(Seq::filter, 1);
                                    }
                                    assert(word_entries(s) =~= entries_of(done.push(piece)));
                                } else {
                                    assert(lines(s) =~= done.push(piece) + rest);
                                    lemma_entries_add(done.push(piece), rest);
                                }
                                assert(word_entries(s)[k] == trim(piece));
                                assert forall|j: int| 0 <= j < k implies is_word_text(#[trigger] word_entries(s)[j]) by {
                                    assert(word_entries(s)[j] == entries_of(done)[j]);
                                }
                                let ws = word_entries(s);
                                assert(0 <= k < ws.len() && (forall|j: int| 0 <= j < k ==> is_word_text(#[trigger] ws[j]))
                                    && !is_word_text(ws[k]));
                            }
                            let err = if fault {
                                SolverError::WordLength { word: entry }
                            } else {
                                SolverError::WordNotLowercase { word: entry }
                            };
                            proof {
                                let k = entries_of(done).len() as int;
                                let ws = word_entries(s);
                                assert(entry@ == ws[k]);
                                assert(word_error(ws[k], ws[k], err));
                                assert(0 <= k < ws.len() && (forall|j: int| 0 <= j < k ==> is_word_text(#[trigger] ws[j]))
                                    && !is_word_text(ws[k]) && word_error(ws[k], ws[k], err));
                            }
                            return Err(err);
                        },
                    }
                }
                proof {
                    done = done.push(piece);
                }
                if i == n {
                    proof {
                        assert(lines(s) =~= done);
                    }
                    break;
                }
                line_start = i + 1;
            } else {
                proof {
                    assert(lines_from(s, line_start as int, i as int) == lines_from(s, line_start as int, i + 1));
                }
            }
            i = i + 1;
        }
        let dict = Dictionary { words, counts, lookup };
        assert(dict@ == words@);
        Ok(dict)
    }

    /// The last position of `w` in the list, if the list holds it.
    pub fn index_of(&self, w: &Word) -> (res: Option<usize>)
        requires
            is_word(*w),
        ensures
            match res {
                Some(i) => i < self@.len() && self@[i as int] == *w && forall|j: int|
                    i < j < self@.len() ==> #[trigger] self@[j] != *w,
                None => forall|j: int| 0 <= j < self@.len() ==> #[trigger] self@[j] != *w,
            },
    {
        proof {
            use_type_invariant(self);
        }
        let key = word_key(w);
        match self.lookup.get(&key) {
            Some(p) => {
                let p = *p;
                proof {
                    assert(self.lookup@.contains_key(key));
                    assert(last_index_of_key(self.words@, key as int, p as int));
                    lemma_word_key_injective(self.words@[p as int], *w);
                    assert forall|j: int| p < j < self@.len() implies #[trigger] self@[j] != *w by {
                        assert(word_key_spec(self.words@[j]) != key);
                    }
                }
                Some(p)
            },
            None => {
                proof {
                    assert forall|j: int| 0 <= j < self@.len() implies #[trigger] self@[j] != *w by {
                        if self@[j] == *w {
                            assert(word_key_spec(self.words@[j]) == key);
                        }
                    }
                }
                None
            },
        }
    }

    /// Number of words in the list.
    pub fn len(&self) -> (n: usize)
        ensures
            n == self@.len(),
            forall|i: int| 0 <= i < self@.len() ==> is_word(#[trigger] self@[i]),
    {
        proof {
            use_type_invariant(self);
        }
        self.words.len()
    }

    /// The word at position `i`.
    pub fn word(&self, i: usize) -> (w: Word)
        requires
            i < self@.len(),
        ensures
            w == self@[i as int],
            is_word(w),
    {
        proof {
            use_type_invariant(self);
        }
        self.words[i]
    }

    /// The letter counts of the word at position `i`.
    pub fn counts(&self, i: usize) -> (c: &LetterCounts)
        requires
            i < self@.len(),
        ensures
            counts_of(*c, self@[i as int]),
    {
        proof {
            use_type_invariant(self);
        }
        &self.counts[i]
    }
}

/// `i` is the last position of the word that the text `t` spells.
pub open spec fn is_last_spelled(words: Seq<Word>, t: Seq<char>, i: usize) -> bool {
    &&& is_word_text(trim(t))
    &&& i < words.len()
    &&& spells(words[i as int], trim(t))
    &&& forall|j: int| i < j < words.len() ==> !spells(#[trigger] words[j], trim(t))
}

/// `e` is why the text `t` names no word of the list: it is no word, or no
/// entry spells it.
pub open spec fn lookup_error(words: Seq<Word>, t: Seq<char>, e: SolverError) -> bool {
    match e {
        SolverError::UnknownWord { word: w } => is_word_text(trim(t)) && w@ == t && forall|j: int|
            0 <= j < words.len() ==> !spells(#[trigger] words[j], trim(t)),
        _ => !is_word_text(trim(t)) && word_error(trim(t), t, e),
    }
}

/// Position of the word that `word` spells: the last position that holds it.
pub fn word_index(dict: &Dictionary, word: &str) -> (res: Result<usize, SolverError>)
    ensures
        match res {
            Ok(i) => is_last_spelled(dict@, word@, i),
            Err(e) => lookup_error(dict@, word@, e),
        },
{
    let letters = match parse_word(word) {
        Ok(w) => w,
        Err(e) => {
            return Err(e);
        },
    };
    let n = dict.len();
    match dict.index_of(&letters) {
        Some(i) => {
            proof {
                assert forall|j: int| i < j < dict@.len() implies !spells(#[trigger] dict@[j], trim(word@)) by {
                    if spells(dict@[j], trim(word@)) {
                        lemma_spells_unique(dict@[j], letters, trim(word@));
                    }
                }
            }
            Ok(i)
        },
        None => {
            proof {
                assert forall|j: int| 0 <= j < dict@.len() implies !spells(#[trigger] dict@[j], trim(word@)) by {
                    if spells(dict@[j], trim(word@)) {
                        lemma_spells_unique(dict@[j], letters, trim(word@));
                    }
                }
            }
            Err(SolverError::UnknownWord { word: word.to_owned() })
        },
    }
}

} // verus!
