use vstd::prelude::*;

use crate::tables::{
    bump_spec, count_table, lemma_count_table_counts_le, lemma_count_table_keys_distinct,
    lemma_count_table_push, table_has_key, table_key_index,
};
use crate::text::{
    is_prefix_of, lemma_words_of_push, lower_of, lowercase, split_whitespace_words, split_ws,
    str_starts_with, trim_of, trim_word, words_of,
};

verus! {

/// A word's final form: fringe trimmed, then lowercased.
pub open spec fn clean_word(w: Seq<char>) -> Seq<char> {
    lower_of(trim_of(w))
}

/// The cleaned words of a word sequence, the ones that came out empty
/// removed.
pub open spec fn clean_words(ws: Seq<Seq<char>>) -> Seq<Seq<char>>
    decreases ws.len(),
{
    if ws.len() == 0 {
        Seq::empty()
    } else {
        let rest = clean_words(ws.drop_last());
        if clean_word(ws.last()).len() > 0 {
            rest.push(clean_word(ws.last()))
        } else {
            rest
        }
    }
}

/// The tokens of a text: its whitespace-separated words, trimmed,
/// lowercased, and dropped when nothing remains.
pub open spec fn tokenize_spec(s: Seq<char>) -> Seq<Seq<char>> {
    clean_words(split_ws(s))
}

proof fn lemma_clean_words_push(ws: Seq<Seq<char>>, w: Seq<char>)
    ensures
        clean_words(ws.push(w)) == if clean_word(w).len() > 0 {
            clean_words(ws).push(clean_word(w))
        } else {
            clean_words(ws)
        },
{
    assert(ws.push(w).drop_last() =~= ws);
    assert(ws.push(w).last() == w);
}

/// The adjacent pairs of a sequence: each element with its successor.
pub open spec fn adjacent_pairs<A>(s: Seq<A>) -> Seq<(A, A)> {
    Seq::new(
        if s.len() == 0 {
            0
        } else {
            (s.len() - 1) as nat
        },
        |i: int| (s[i], s[i + 1]),
    )
}

/// The adjacent triples of a sequence.
pub open spec fn adjacent_triples<A>(s: Seq<A>) -> Seq<(A, A, A)> {
    Seq::new(
        if s.len() < 2 {
            0
        } else {
            (s.len() - 2) as nat
        },
        |i: int| (s[i], s[i + 1], s[i + 2]),
    )
}

/// The word table at the spec level: each key's characters with its count.
pub open spec fn unigram_view(v: Seq<(String, usize)>) -> Seq<(Seq<char>, nat)> {
    Seq::new(v.len(), |i: int| (v[i].0@, v[i].1 as nat))
}

/// The pair table at the spec level.
pub open spec fn bigram_view(v: Seq<((String, String), usize)>) -> Seq<
    ((Seq<char>, Seq<char>), nat),
> {
    Seq::new(v.len(), |i: int| ((v[i].0.0@, v[i].0.1@), v[i].1 as nat))
}

/// The triple table at the spec level.
pub open spec fn trigram_view(v: Seq<((String, String, String), usize)>) -> Seq<
    ((Seq<char>, Seq<char>, Seq<char>), nat),
> {
    Seq::new(v.len(), |i: int| ((v[i].0.0@, v[i].0.1@, v[i].0.2@), v[i].1 as nat))
}

/// The word being completed: the last whitespace-separated word of a
/// (lowercased) input, or nothing when the input has no words.
pub open spec fn last_word_of(s: Seq<char>) -> Seq<char> {
    let ws = split_ws(s);
    if ws.len() == 0 {
        Seq::empty()
    } else {
        ws.last()
    }
}

/// Entry `j` of a word table completes the prefix `pre`.
pub open spec fn unigram_matches(t: Seq<(Seq<char>, nat)>, pre: Seq<char>, j: int) -> bool {
    0 <= j < t.len() && is_prefix_of(pre, t[j].0)
}

/// Some entry of the word table completes the prefix.
pub open spec fn unigram_some_match(t: Seq<(Seq<char>, nat)>, pre: Seq<char>) -> bool {
    exists|j: int| unigram_matches(t, pre, j)
}

/// Entry `j` is the suggestion: it completes the prefix, no completing
/// entry counts higher, and no earlier completing entry counts as high.
pub open spec fn unigram_best_at(t: Seq<(Seq<char>, nat)>, pre: Seq<char>, j: int) -> bool {
    &&& unigram_matches(t, pre, j)
    &&& forall|k: int| unigram_matches(t, pre, k) ==> t[k].1 <= t[j].1
    &&& forall|k: int| 0 <= k < j && unigram_matches(t, pre, k) ==> t[k].1 < t[j].1
}

/// Entry `j` of a pair table follows the word `prev` and completes `cur`.
pub open spec fn bigram_matches(
    t: Seq<((Seq<char>, Seq<char>), nat)>,
    prev: Seq<char>,
    cur: Seq<char>,
    j: int,
) -> bool {
    0 <= j < t.len() && t[j].0.0 == prev && is_prefix_of(cur, t[j].0.1)
}

/// Some entry of the pair table fits the context.
pub open spec fn bigram_some_match(
    t: Seq<((Seq<char>, Seq<char>), nat)>,
    prev: Seq<char>,
    cur: Seq<char>,
) -> bool {
    exists|j: int| bigram_matches(t, prev, cur, j)
}

/// Entry `j` is the pair suggestion, by the same rule as for words.
pub open spec fn bigram_best_at(
    t: Seq<((Seq<char>, Seq<char>), nat)>,
    prev: Seq<char>,
    cur: Seq<char>,
    j: int,
) -> bool {
    &&& bigram_matches(t, prev, cur, j)
    &&& forall|k: int| bigram_matches(t, prev, cur, k) ==> t[k].1 <= t[j].1
    &&& forall|k: int| 0 <= k < j && bigram_matches(t, prev, cur, k) ==> t[k].1 < t[j].1
}

/// Entry `j` of a triple table follows `ante prev` and completes `cur`.
pub open spec fn trigram_matches(
    t: Seq<((Seq<char>, Seq<char>, Seq<char>), nat)>,
    ante: Seq<char>,
    prev: Seq<char>,
    cur: Seq<char>,
    j: int,
) -> bool {
    0 <= j < t.len() && t[j].0.0 == ante && t[j].0.1 == prev && is_prefix_of(cur, t[j].0.2)
}

/// Some entry of the triple table fits the context.
pub open spec fn trigram_some_match(
    t: Seq<((Seq<char>, Seq<char>, Seq<char>), nat)>,
    ante: Seq<char>,
    prev: Seq<char>,
    cur: Seq<char>,
) -> bool {
    exists|j: int| trigram_matches(t, ante, prev, cur, j)
}

/// Entry `j` is the triple suggestion, by the same rule as for words.
pub open spec fn trigram_best_at(
    t: Seq<((Seq<char>, Seq<char>, Seq<char>), nat)>,
    ante: Seq<char>,
    prev: Seq<char>,
    cur: Seq<char>,
    j: int,
) -> bool {
    &&& trigram_matches(t, ante, prev, cur, j)
    &&& forall|k: int| trigram_matches(t, ante, prev, cur, k) ==> t[k].1 <= t[j].1
    &&& forall|k: int| 0 <= k < j && trigram_matches(t, ante, prev, cur, k) ==> t[k].1 < t[j].1
}

/// Record one more occurrence of `key` in a word table.
fn bump_unigram(table: &mut Vec<(String, usize)>, key: String)
    requires
        forall|j1: int, j2: int|
            0 <= j1 < j2 < old(table)@.len() ==> unigram_view(old(table)@)[j1].0 != unigram_view(
                old(table)@,
            )[j2].0,
        forall|j: int|
            0 <= j < old(table)@.len() ==> unigram_view(old(table)@)[j].1 < usize::MAX,
    ensures
        unigram_view(final(table)@) == bump_spec(unigram_view(old(table)@), key@),
{
    let ghost t = unigram_view(table@);
    let mut j: usize = 0;
    while j < table.len()
        invariant
            table@ == old(table)@,
            t == unigram_view(old(table)@),
            j <= table@.len(),
            forall|m: int| 0 <= m < j ==> t[m].0 != key@,
            forall|j1: int, j2: int| 0 <= j1 < j2 < t.len() ==> t[j1].0 != t[j2].0,
            forall|m: int| 0 <= m < t.len() ==> t[m].1 < usize::MAX,
        decreases table@.len() - j,
    {
        if table[j].0 == key {
            proof {
                assert(t[j as int].0 == key@);
                assert(table_has_key(t, key@));
                let jj = table_key_index(t, key@);
                assert(t[jj].0 == key@);
                assert(jj == j as int);
            }
            let pair = table.remove(j);
            let bumped = pair.1 + 1;
            let ghost np = (pair.0, bumped);
            table.insert(j, (pair.0, bumped));
            proof {
                assert(table@ =~= old(table)@.update(j as int, np));
                assert(unigram_view(table@) =~= t.update(j as int, (key@, t[j as int].1 + 1)));
            }
            return;
        }
        j += 1;
    }
    proof {
        assert(!table_has_key(t, key@)) by {
            if table_has_key(t, key@) {
                let jj = table_key_index(t, key@);
                assert(t[jj].0 == key@);
            }
        }
    }
    table.push((key, 1));
    proof {
        assert(unigram_view(table@) =~= t.push((key@, 1nat)));
    }
}

/// Record one more occurrence of `key` in a pair table.
fn bump_bigram(table: &mut Vec<((String, String), usize)>, key: (String, String))
    requires
        forall|j1: int, j2: int|
            0 <= j1 < j2 < old(table)@.len() ==> bigram_view(old(table)@)[j1].0 != bigram_view(
                old(table)@,
            )[j2].0,
        forall|j: int| 0 <= j < old(table)@.len() ==> bigram_view(old(table)@)[j].1 < usize::MAX,
    ensures
        bigram_view(final(table)@) == bump_spec(bigram_view(old(table)@), (key.0@, key.1@)),
{
    let ghost t = bigram_view(table@);
    let ghost k = (key.0@, key.1@);
    let mut j: usize = 0;
    while j < table.len()
        invariant
            table@ == old(table)@,
            t == bigram_view(old(table)@),
            k == (key.0@, key.1@),
            j <= table@.len(),
            forall|m: int| 0 <= m < j ==> t[m].0 != k,
            forall|j1: int, j2: int| 0 <= j1 < j2 < t.len() ==> t[j1].0 != t[j2].0,
            forall|m: int| 0 <= m < t.len() ==> t[m].1 < usize::MAX,
        decreases table@.len() - j,
    {
        if table[j].0.0 == key.0 && table[j].0.1 == key.1 {
            proof {
                assert(t[j as int].0 == k);
                assert(table_has_key(t, k));
                let jj = table_key_index(t, k);
                assert(t[jj].0 == k);
                assert(jj == j as int);
            }
            let pair = table.remove(j);
            let bumped = pair.1 + 1;
            let ghost np = (pair.0, bumped);
            table.insert(j, (pair.0, bumped));
            proof {
                assert(table@ =~= old(table)@.update(j as int, np));
                assert(bigram_view(table@) =~= t.update(j as int, (k, t[j as int].1 + 1)));
            }
            return;
        }
        j += 1;
    }
    proof {
        assert(!table_has_key(t, k)) by {
            if table_has_key(t, k) {
                let jj = table_key_index(t, k);
                assert(t[jj].0 == k);
            }
        }
    }
    table.push((key, 1));
    proof {
        assert(bigram_view(table@) =~= t.push((k, 1nat)));
    }
}

/// Record one more occurrence of `key` in a triple table.
fn bump_trigram(table: &mut Vec<((String, String, String), usize)>, key: (String, String, String))
    requires
        forall|j1: int, j2: int|
            0 <= j1 < j2 < old(table)@.len() ==> trigram_view(old(table)@)[j1].0 != trigram_view(
                old(table)@,
            )[j2].0,
        forall|j: int| 0 <= j < old(table)@.len() ==> trigram_view(old(table)@)[j].1 < usize::MAX,
    ensures
        trigram_view(final(table)@) == bump_spec(
            trigram_view(old(table)@),
            (key.0@, key.1@, key.2@),
        ),
{
    let ghost t = trigram_view(table@);
    let ghost k = (key.0@, key.1@, key.2@);
    let mut j: usize = 0;
    while j < table.len()
        invariant
            table@ == old(table)@,
            t == trigram_view(old(table)@),
            k == (key.0@, key.1@, key.2@),
            j <= table@.len(),
            forall|m: int| 0 <= m < j ==> t[m].0 != k,
            forall|j1: int, j2: int| 0 <= j1 < j2 < t.len() ==> t[j1].0 != t[j2].0,
            forall|m: int| 0 <= m < t.len() ==> t[m].1 < usize::MAX,
        decreases table@.len() - j,
    {
        if table[j].0.0 == key.0 && table[j].0.1 == key.1 && table[j].0.2 == key.2 {
            proof {
                assert(t[j as int].0 == k);
                assert(table_has_key(t, k));
                let jj = table_key_index(t, k);
                assert(t[jj].0 == k);
                assert(jj == j as int);
            }
            let pair = table.remove(j);
            let bumped = pair.1 + 1;
            let ghost np = (pair.0, bumped);
            table.insert(j, (pair.0, bumped));
            proof {
                assert(table@ =~= old(table)@.update(j as int, np));
                assert(trigram_view(table@) =~= t.update(j as int, (k, t[j as int].1 + 1)));
            }
            return;
        }
        j += 1;
    }
    proof {
        assert(!table_has_key(t, k)) by {
            if table_has_key(t, k) {
                let jj = table_key_index(t, k);
                assert(t[jj].0 == k);
            }
        }
    }
    table.push((key, 1));
    proof {
        assert(trigram_view(table@) =~= t.push((k, 1nat)));
    }
}

/// Word-frequency tables over a text: how often each word, adjacent word
/// pair and adjacent word triple occurs.
pub struct NGramModel {
    pub unigram: Vec<(String, usize)>,
    pub bigram: Vec<((String, String), usize)>,
    pub trigram: Vec<((String, String, String), usize)>,
}

impl NGramModel {
    /// Count, over the tokens of a text, how often each word follows each
    /// context: every word, every adjacent pair and every adjacent triple,
    /// each with its number of occurrences, keyed in order of first
    /// occurrence.
    pub fn train(text: &str) -> (m: NGramModel)
        ensures
            unigram_view(m.unigram@) == count_table(tokenize_spec(text@)),
            bigram_view(m.bigram@) == count_table(adjacent_pairs(tokenize_spec(text@))),
            trigram_view(m.trigram@) == count_table(adjacent_triples(tokenize_spec(text@))),
    {
        let tokens = Self::tokenize(text);
        let ghost toks = tokenize_spec(text@);
        let mut unigram: Vec<(String, usize)> = Vec::new();
        let mut bigram: Vec<((String, String), usize)> = Vec::new();
        let mut trigram: Vec<((String, String, String), usize)> = Vec::new();
        proof {
            assert(toks.take(0) =~= Seq::<Seq<char>>::empty());
            assert(unigram_view(unigram@) =~= count_table(toks.take(0)));
            assert(bigram_view(bigram@) =~= count_table(adjacent_pairs(toks.take(0))));
            assert(trigram_view(trigram@) =~= count_table(adjacent_triples(toks.take(0))));
        }
        let mut i: usize = 0;
        while i < tokens.len()
            invariant
                words_of(tokens@) == toks,
                i <= tokens@.len(),
                unigram_view(unigram@) == count_table(toks.take(i as int)),
                bigram_view(bigram@) == count_table(adjacent_pairs(toks.take(i as int))),
                trigram_view(trigram@) == count_table(adjacent_triples(toks.take(i as int))),
            decreases tokens@.len() - i,
        {
            let ghost prefix = toks.take(i as int);
            proof {
                lemma_count_table_keys_distinct(prefix);
                lemma_count_table_counts_le(prefix);
                lemma_count_table_keys_distinct(adjacent_pairs(prefix));
                lemma_count_table_counts_le(adjacent_pairs(prefix));
                lemma_count_table_keys_distinct(adjacent_triples(prefix));
                lemma_count_table_counts_le(adjacent_triples(prefix));
                assert(prefix.len() == i as int);
                assert(adjacent_pairs(prefix).len() <= i as int);
                assert(adjacent_triples(prefix).len() <= i as int);
            }
            let tok = tokens[i].clone();
            bump_unigram(&mut unigram, tok);
            proof {
                lemma_count_table_push(prefix, toks[i as int]);
                assert(prefix.push(toks[i as int]) =~= toks.take(i as int + 1));
            }
            if i > 0 {
                let prev = tokens[i - 1].clone();
                let cur = tokens[i].clone();
                bump_bigram(&mut bigram, (prev, cur));
                proof {
                    lemma_count_table_push(
                        adjacent_pairs(prefix),
                        (toks[i as int - 1], toks[i as int]),
                    );
                    assert(adjacent_pairs(prefix).push((toks[i as int - 1], toks[i as int]))
                        =~= adjacent_pairs(toks.take(i as int + 1)));
                }
            } else {
                proof {
                    assert(adjacent_pairs(prefix) =~= adjacent_pairs(toks.take(i as int + 1)));
                }
            }
            if i > 1 {
                let ante = tokens[i - 2].clone();
                let prev = tokens[i - 1].clone();
                let cur = tokens[i].clone();
                bump_trigram(&mut trigram, (ante, prev, cur));
                proof {
                    lemma_count_table_push(
                        adjacent_triples(prefix),
                        (toks[i as int - 2], toks[i as int - 1], toks[i as int]),
                    );
                    assert(adjacent_triples(prefix).push(
                        (toks[i as int - 2], toks[i as int - 1], toks[i as int]),
                    ) =~= adjacent_triples(toks.take(i as int + 1)));
                }
            } else {
                proof {
                    assert(adjacent_triples(prefix) =~= adjacent_triples(toks.take(i as int + 1)));
                }
            }
            i += 1;
        }
        proof {
            assert(toks.take(tokens@.len() as int) =~= toks);
        }
        NGramModel { unigram, bigram, trigram }
    }

    /// Whitespace tokenizer that also strips the non-alphanumeric fringe of
    /// each word and lowercases it, dropping words with nothing left.
    pub fn tokenize(text: &str) -> (r: Vec<String>)
        ensures
            words_of(r@) == tokenize_spec(text@),
    {
        let words = split_whitespace_words(text);
        let ghost ws = split_ws(text@);
        let mut r: Vec<String> = Vec::new();
        proof {
            assert(ws.take(0) =~= Seq::<Seq<char>>::empty());
            assert(words_of(r@) =~= clean_words(ws.take(0)));
        }
        let mut i: usize = 0;
        while i < words.len()
            invariant
                words_of(words@) == ws,
                i <= words@.len(),
                words_of(r@) == clean_words(ws.take(i as int)),
            decreases words@.len() - i,
        {
            let trimmed = trim_word(words[i].as_str());
            let lowered = lowercase(trimmed);
            proof {
                assert(words@[i as int]@ == ws[i as int]);
                assert(lowered@ == clean_word(ws[i as int]));
                lemma_clean_words_push(ws.take(i as int), ws[i as int]);
                assert(ws.take(i as int).push(ws[i as int]) =~= ws.take(i as int + 1));
                lemma_words_of_push(r@, lowered);
            }
            if !lowered.as_str().is_empty() {
                r.push(lowered);
            }
            i += 1;
        }
        proof {
            assert(ws.take(words@.len() as int) =~= ws);
        }
        r
    }

    /// Suggest the completion of the last word of the input: the word in
    /// the table that starts with it (case-insensitively) and occurs most
    /// often, earliest entry first on ties; `("", 0)` when nothing matches.
    pub fn suggest_unigram(&self, input: &str) -> (r: (String, usize))
        ensures
            ({
                let t = unigram_view(self.unigram@);
                let pre = last_word_of(lower_of(input@));
                &&& unigram_some_match(t, pre) ==> (exists|j: int|
                    unigram_best_at(t, pre, j) && r.0@ == t[j].0 && r.1 as nat == t[j].1)
                &&& !unigram_some_match(t, pre) ==> (r.0@ == Seq::<char>::empty() && r.1 == 0)
            }),
    {
        let lowered = lowercase(input);
        let words = split_whitespace_words(lowered.as_str());
        let pre: String = if words.len() == 0 {
            String::new()
        } else {
            words[words.len() - 1].clone()
        };
        proof {
            assert(pre@ == last_word_of(lower_of(input@)));
        }
        let ghost t = unigram_view(self.unigram@);
        let mut best: Option<(String, usize)> = None;
        let ghost mut best_j: int = 0;
        let mut j: usize = 0;
        while j < self.unigram.len()
            invariant
                t == unigram_view(self.unigram@),
                j <= t.len(),
                pre@ == last_word_of(lower_of(input@)),
                best is None ==> forall|k: int| 0 <= k < j ==> !unigram_matches(t, pre@, k),
                best matches Some(p) ==> {
                    &&& 0 <= best_j < j as int
                    &&& unigram_matches(t, pre@, best_j)
                    &&& p.0@ == t[best_j].0
                    &&& p.1 as nat == t[best_j].1
                    &&& forall|k: int|
                        0 <= k < j && unigram_matches(t, pre@, k) ==> t[k].1 <= t[best_j].1
                    &&& forall|k: int|
                        0 <= k < best_j && unigram_matches(t, pre@, k) ==> t[k].1 < t[best_j].1
                },
            decreases t.len() - j,
        {
            if str_starts_with(self.unigram[j].0.as_str(), pre.as_str()) {
                let is_better = match &best {
                    None => true,
                    Some(p) => self.unigram[j].1 > p.1,
                };
                if is_better {
                    best = Some((self.unigram[j].0.clone(), self.unigram[j].1));
                    proof {
                        best_j = j as int;
                    }
                }
            }
            j += 1;
        }
        match best {
            Some(p) => {
                proof {
                    assert(unigram_best_at(t, pre@, best_j));
                }
                p
            },
            None => {
                proof {
                    assert(!unigram_some_match(t, pre@)) by {
                        if unigram_some_match(t, pre@) {
                            let k = choose|k: int| unigram_matches(t, pre@, k);
                            assert(!unigram_matches(t, pre@, k));
                        }
                    }
                }
                (String::new(), 0)
            },
        }
    }

    /// Suggest the completion of the last word of the input from the words
    /// seen right after the previous word: among the pairs whose first word
    /// equals the previous token and whose second word starts with the last
    /// token, the most frequent one, earliest entry first on ties. `("", 0)`
    /// when the input has fewer than two tokens or nothing matches.
    pub fn suggest_bigram(&self, input: &str) -> (r: (String, usize))
        ensures
            ({
                let ts = tokenize_spec(input@);
                let t = bigram_view(self.bigram@);
                &&& ts.len() < 2 ==> (r.0@ == Seq::<char>::empty() && r.1 == 0)
                &&& ts.len() >= 2 ==> {
                    let prev = ts[ts.len() - 2];
                    let cur = ts[ts.len() - 1];
                    &&& bigram_some_match(t, prev, cur) ==> (exists|j: int|
                        bigram_best_at(t, prev, cur, j) && r.0@ == t[j].0.1 && r.1 as nat
                            == t[j].1)
                    &&& !bigram_some_match(t, prev, cur) ==> (r.0@ == Seq::<char>::empty() && r.1
                        == 0)
                }
            }),
    {
        let toks = Self::tokenize(input);
        if toks.len() < 2 {
            return (String::new(), 0);
        }
        let previous = toks[toks.len() - 2].clone();
        let current = toks[toks.len() - 1].clone();
        let ghost ts = tokenize_spec(input@);
        proof {
            assert(previous@ == ts[ts.len() - 2]);
            assert(current@ == ts[ts.len() - 1]);
        }
        let ghost t = bigram_view(self.bigram@);
        let mut best: Option<(String, usize)> = None;
        let ghost mut best_j: int = 0;
        let mut j: usize = 0;
        while j < self.bigram.len()
            invariant
                t == bigram_view(self.bigram@),
                j <= t.len(),
                best is None ==> forall|k: int|
                    0 <= k < j ==> !bigram_matches(t, previous@, current@, k),
                best matches Some(p) ==> {
                    &&& 0 <= best_j < j as int
                    &&& bigram_matches(t, previous@, current@, best_j)
                    &&& p.0@ == t[best_j].0.1
                    &&& p.1 as nat == t[best_j].1
                    &&& forall|k: int|
                        0 <= k < j && bigram_matches(t, previous@, current@, k) ==> t[k].1
                            <= t[best_j].1
                    &&& forall|k: int|
                        0 <= k < best_j && bigram_matches(t, previous@, current@, k) ==> t[k].1
                            < t[best_j].1
                },
            decreases t.len() - j,
        {
            if self.bigram[j].0.0 == previous && str_starts_with(
                self.bigram[j].0.1.as_str(),
                current.as_str(),
            ) {
                let is_better = match &best {
                    None => true,
                    Some(p) => self.bigram[j].1 > p.1,
                };
                if is_better {
                    best = Some((self.bigram[j].0.1.clone(), self.bigram[j].1));
                    proof {
                        best_j = j as int;
                    }
                }
            }
            j += 1;
        }
        match best {
            Some(p) => {
                proof {
                    assert(bigram_best_at(t, previous@, current@, best_j));
                }
                p
            },
            None => {
                proof {
                    assert(!bigram_some_match(t, previous@, current@)) by {
                        if bigram_some_match(t, previous@, current@) {
                            let k = choose|k: int| bigram_matches(t, previous@, current@, k);
                            assert(!bigram_matches(t, previous@, current@, k));
                        }
                    }
                }
                (String::new(), 0)
            },
        }
    }

    /// Suggest the completion of the last word of the input from the words
    /// seen right after the previous two words: among the triples whose
    /// first two words equal the previous two tokens and whose third word
    /// starts with the last token, the most frequent one, earliest entry
    /// first on ties. `("", 0)` when the input has fewer than three tokens
    /// or nothing matches.
    pub fn suggest_trigram(&self, input: &str) -> (r: (String, usize))
        ensures
            ({
                let ts = tokenize_spec(input@);
                let t = trigram_view(self.trigram@);
                &&& ts.len() < 3 ==> (r.0@ == Seq::<char>::empty() && r.1 == 0)
                &&& ts.len() >= 3 ==> {
                    let ante = ts[ts.len() - 3];
                    let prev = ts[ts.len() - 2];
                    let cur = ts[ts.len() - 1];
                    &&& trigram_some_match(t, ante, prev, cur) ==> (exists|j: int|
                        trigram_best_at(t, ante, prev, cur, j) && r.0@ == t[j].0.2 && r.1 as nat
                            == t[j].1)
                    &&& !trigram_some_match(t, ante, prev, cur) ==> (r.0@ == Seq::<char>::empty()
                        && r.1 == 0)
                }
            }),
    {
        let toks = Self::tokenize(input);
        if toks.len() < 3 {
            return (String::new(), 0);
        }
        let ante_previous = toks[toks.len() - 3].clone();
        let previous = toks[toks.len() - 2].clone();
        let current = toks[toks.len() - 1].clone();
        let ghost ts = tokenize_spec(input@);
        proof {
            assert(ante_previous@ == ts[ts.len() - 3]);
            assert(previous@ == ts[ts.len() - 2]);
            assert(current@ == ts[ts.len() - 1]);
        }
        let ghost t = trigram_view(self.trigram@);
        let mut best: Option<(String, usize)> = None;
        let ghost mut best_j: int = 0;
        let mut j: usize = 0;
        while j < self.trigram.len()
            invariant
                t == trigram_view(self.trigram@),
                j <= t.len(),
                best is None ==> forall|k: int|
                    0 <= k < j ==> !trigram_matches(t, ante_previous@, previous@, current@, k),
                best matches Some(p) ==> {
                    &&& 0 <= best_j < j as int
                    &&& trigram_matches(t, ante_previous@, previous@, current@, best_j)
                    &&& p.0@ == t[best_j].0.2
                    &&& p.1 as nat == t[best_j].1
                    &&& forall|k: int|
                        0 <= k < j && trigram_matches(t, ante_previous@, previous@, current@, k)
                            ==> t[k].1 <= t[best_j].1
                    &&& forall|k: int|
                        0 <= k < best_j && trigram_matches(
                            t,
                            ante_previous@,
                            previous@,
                            current@,
                            k,
                        ) ==> t[k].1 < t[best_j].1
                },
            decreases t.len() - j,
        {
            if self.trigram[j].0.0 == ante_previous && self.trigram[j].0.1 == previous
                && str_starts_with(self.trigram[j].0.2.as_str(), current.as_str()) {
                let is_better = match &best {
                    None => true,
                    Some(p) => self.trigram[j].1 > p.1,
                };
                if is_better {
                    best = Some((self.trigram[j].0.2.clone(), self.trigram[j].1));
                    proof {
                        best_j = j as int;
                    }
                }
            }
            j += 1;
        }
        match best {
            Some(p) => {
                proof {
                    assert(trigram_best_at(t, ante_previous@, previous@, current@, best_j));
                }
                p
            },
            None => {
                proof {
                    assert(!trigram_some_match(t, ante_previous@, previous@, current@)) by {
                        if trigram_some_match(t, ante_previous@, previous@, current@) {
                            let k = choose|k: int|
                                trigram_matches(t, ante_previous@, previous@, current@, k);
                            assert(!trigram_matches(t, ante_previous@, previous@, current@, k));
                        }
                    }
                }
                (String::new(), 0)
            },
        }
    }
}

} // verus!
