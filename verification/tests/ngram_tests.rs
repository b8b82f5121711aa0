use llm_from_scratch::n_gram_model::NGramModel;

fn count_of(table: &Vec<(String, usize)>, key: &str) -> Option<usize> {
    table.iter().find(|e| e.0 == key).map(|e| e.1)
}

fn pair_count_of(table: &Vec<((String, String), usize)>, a: &str, b: &str) -> Option<usize> {
    table.iter().find(|e| e.0.0 == a && e.0.1 == b).map(|e| e.1)
}

fn triple_count_of(
    table: &Vec<((String, String, String), usize)>,
    a: &str,
    b: &str,
    c: &str,
) -> Option<usize> {
    table.iter().find(|e| e.0.0 == a && e.0.1 == b && e.0.2 == c).map(|e| e.1)
}

#[test]
fn tokenize_lowercases_and_trims() {
    let tokens = NGramModel::tokenize("Hello, World! It's  ROCK-climbing... (yes)");
    assert_eq!(tokens, vec!["hello", "world", "it's", "rock-climbing", "yes"]);
}

#[test]
fn tokenize_drops_words_with_nothing_left() {
    let tokens = NGramModel::tokenize("--- what ?! ...");
    assert_eq!(tokens, vec!["what"]);
    let tokens = NGramModel::tokenize("   ");
    assert!(tokens.is_empty());
    let tokens = NGramModel::tokenize("");
    assert!(tokens.is_empty());
}

#[test]
fn train_counts_unigrams() {
    let model = NGramModel::train("the cat and the dog and the cat");
    assert_eq!(count_of(&model.unigram, "the"), Some(3));
    assert_eq!(count_of(&model.unigram, "cat"), Some(2));
    assert_eq!(count_of(&model.unigram, "and"), Some(2));
    assert_eq!(count_of(&model.unigram, "dog"), Some(1));
    assert_eq!(count_of(&model.unigram, "mouse"), None);
    assert_eq!(model.unigram.len(), 4);
}

#[test]
fn train_counts_bigrams_and_trigrams() {
    let model = NGramModel::train("the cat and the dog and the cat");
    assert_eq!(pair_count_of(&model.bigram, "the", "cat"), Some(2));
    assert_eq!(pair_count_of(&model.bigram, "cat", "and"), Some(1));
    assert_eq!(pair_count_of(&model.bigram, "and", "the"), Some(2));
    assert_eq!(pair_count_of(&model.bigram, "the", "dog"), Some(1));
    assert_eq!(pair_count_of(&model.bigram, "dog", "and"), Some(1));
    assert_eq!(pair_count_of(&model.bigram, "cat", "the"), None);
    assert_eq!(model.bigram.len(), 5);

    assert_eq!(triple_count_of(&model.trigram, "the", "cat", "and"), Some(1));
    assert_eq!(triple_count_of(&model.trigram, "and", "the", "cat"), Some(1));
    assert_eq!(triple_count_of(&model.trigram, "and", "the", "dog"), Some(1));
    assert_eq!(triple_count_of(&model.trigram, "cat", "and", "the"), Some(1));
    assert_eq!(triple_count_of(&model.trigram, "the", "dog", "and"), Some(1));
    assert_eq!(triple_count_of(&model.trigram, "dog", "and", "the"), Some(1));
    assert_eq!(model.trigram.len(), 6);
}

#[test]
fn train_counts_are_case_insensitive() {
    let model = NGramModel::train("The THE the");
    assert_eq!(count_of(&model.unigram, "the"), Some(3));
    assert_eq!(model.unigram.len(), 1);
}

#[test]
fn suggest_unigram_picks_most_frequent_completion() {
    let model = NGramModel::train("the cat the cap the cat");
    assert_eq!(model.suggest_unigram("ca"), ("cat".to_string(), 2));
    // Only the last word of the input is completed, case-insensitively.
    assert_eq!(model.suggest_unigram("going CA"), ("cat".to_string(), 2));
    // A prefix nothing starts with yields the empty suggestion.
    assert_eq!(model.suggest_unigram("zz"), (String::new(), 0));
}

#[test]
fn suggest_unigram_breaks_ties_by_first_occurrence() {
    let model = NGramModel::train("beta card beta card");
    // Both words occur twice; "beta" was seen first.
    assert_eq!(model.suggest_unigram(""), ("beta".to_string(), 2));
}

#[test]
fn suggest_bigram_uses_previous_word() {
    let model = NGramModel::train("the cat sat and the cat ran and the dog sat");
    assert_eq!(model.suggest_bigram("the ca"), ("cat".to_string(), 2));
    assert_eq!(model.suggest_bigram("the d"), ("dog".to_string(), 1));
    // The previous word must match exactly.
    assert_eq!(model.suggest_bigram("dog ca"), (String::new(), 0));
    // Fewer than two tokens: empty suggestion.
    assert_eq!(model.suggest_bigram("the"), (String::new(), 0));
    assert_eq!(model.suggest_bigram(""), (String::new(), 0));
}

#[test]
fn suggest_trigram_uses_previous_two_words() {
    let model = NGramModel::train("when going in the mountains bring the mountains gear");
    // Only the last three tokens matter: (in, the) is the context here.
    assert_eq!(model.suggest_trigram("going in the mou"), ("mountains".to_string(), 1));
    assert_eq!(model.suggest_trigram("in the mou"), ("mountains".to_string(), 1));
    // A context that never occurred: empty suggestion.
    assert_eq!(model.suggest_trigram("bring in mou"), (String::new(), 0));
    // Fewer than three tokens: empty suggestion.
    assert_eq!(model.suggest_trigram("the mou"), (String::new(), 0));
    assert_eq!(model.suggest_trigram(""), (String::new(), 0));
}

#[test]
fn suggest_trigram_counts_repeats() {
    let model = NGramModel::train("a b c a b c a b d");
    assert_eq!(model.suggest_trigram("a b c"), ("c".to_string(), 2));
    assert_eq!(model.suggest_trigram("x a b"), (String::new(), 0));
}
