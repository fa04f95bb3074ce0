use rsplitter::backtracker::{join_reversed, minimal_cost};
use rsplitter::segmenter::{best_match, build_cost_array};
use rsplitter::cost_model::add_cost;
use rsplitter::{
    segment, split_wrapper, CostModel, LanguageModel, SplitError, INFINITE_COST, UNKNOWN_COST,
};

/// Fixed-point cost of each rank: ln(rank * ln(n)) in millionths, at least 0.
fn rank_costs(n: usize) -> Vec<u64> {
    let ln_n = (n as f64).ln();
    (1..=n)
        .map(|r| {
            let c = ((r as f64) * ln_n).ln() * 1_000_000.0;
            if c > 0.0 { c.round() as u64 } else { 0 }
        })
        .collect()
}

fn words(ws: &[&str]) -> Vec<String> {
    ws.iter().map(|w| w.to_string()).collect()
}

fn model_of(ws: &[&str], fold_case: bool) -> CostModel {
    let ws = words(ws);
    let costs = rank_costs(ws.len());
    CostModel::from_ranked(&ws, &costs, fold_case)
}

fn sentence_words() -> Vec<String> {
    let mut ws = words(&["the", "quick", "brown", "fox", "jumps", "over", "lazy", "dog"]);
    for c in 'a'..='z' {
        ws.push(c.to_string());
    }
    ws
}

fn sentence_model() -> CostModel {
    let ws = sentence_words();
    let costs = rank_costs(ws.len());
    CostModel::from_ranked(&ws, &costs, true)
}

#[test]
fn it_works() {
    let model = sentence_model();
    let text = "Thequickbrownfoxjumpsoverthelazydog";
    let result = split_wrapper(&model, text.to_string());
    assert_eq!(result, "The quick brown fox jumps over the lazy dog");
}

#[test]
fn test_split() {
    let text = "Thequickbrownfoxjumpsoverthelazydog";
    let mut language_model = LanguageModel::new("corpus.txt".to_string());
    let ws = sentence_words();
    let costs = rank_costs(ws.len());
    language_model.install_cost_model(&ws, &costs);
    let result = language_model.split_wrapper(text.to_string());
    assert_eq!(result, "The quick brown fox jumps over the lazy dog");
}

#[test]
fn empty_text_gives_empty_string() {
    let model = sentence_model();
    assert_eq!(split_wrapper(&model, String::new()), "");
    assert_eq!(segment(&model, "", false), "");
}

#[test]
fn output_without_spaces_is_the_input() {
    let model = sentence_model();
    for text in ["Thequickbrownfoxjumpsoverthelazydog", "zzqx", "100dog's", "'"] {
        let out = split_wrapper(&model, text.to_string());
        assert_eq!(out.replace(' ', ""), text);
    }
}

#[test]
fn repeated_calls_agree() {
    let model = sentence_model();
    let a = split_wrapper(&model, "thelazydogjumps".to_string());
    let b = split_wrapper(&model, "thelazydogjumps".to_string());
    assert_eq!(a, b);
    assert_eq!(a, "the lazy dog jumps");
}

#[test]
fn cost_model_is_built_once() {
    let mut lm = LanguageModel::new("corpus.txt".to_string());
    assert!(!lm.is_loaded());
    let first = words(&["hello", "world", "a"]);
    lm.install_cost_model(&first, &rank_costs(3));
    let second = words(&["hell", "oworld", "b"]);
    lm.install_cost_model(&second, &rank_costs(3));
    assert!(lm.is_loaded());
    assert_eq!(lm.split_wrapper("helloworld".to_string()), "hello world");
}

#[test]
fn split_without_model_fails() {
    let mut lm = LanguageModel::new("corpus.txt".to_string());
    assert_eq!(lm.split("abc".to_string()), Err(SplitError::ModelNotLoaded));
    lm.install_cost_model(&words(&["ab", "c", "a"]), &rank_costs(3));
    assert_eq!(lm.split("abc".to_string()), Ok("ab c".to_string()));
}

#[test]
fn case_sensitive_configuration() {
    let model = model_of(&["hello", "world", "a", "b"], false);
    assert_eq!(segment(&model, "helloworld", true), "hello world");
    let capital = model_of(&["Hello", "world", "a", "b"], false);
    assert_eq!(capital.cost_of_fragment("hello"), UNKNOWN_COST);
    assert_ne!(capital.cost_of_fragment("Hello"), UNKNOWN_COST);
}

#[test]
fn digits_are_rejoined() {
    let mut ws = words(&["dollars", "the", "a"]);
    for d in '0'..='9' {
        ws.push(d.to_string());
    }
    let model = CostModel::from_ranked(&ws, &rank_costs(ws.len()), true);
    assert_eq!(segment(&model, "100dollars", true), "100 dollars");
    assert_eq!(segment(&model, "100dollars", false), "1 0 0 dollars");
}

#[test]
fn possessive_is_reattached() {
    let mut ws = words(&["the", "cat", "toy", "'s"]);
    for c in 'a'..='z' {
        ws.push(c.to_string());
    }
    let model = CostModel::from_ranked(&ws, &rank_costs(ws.len()), true);
    assert_eq!(segment(&model, "thecat'stoy", true), "the cat's toy");
    assert_eq!(segment(&model, "thecat'stoy", false), "the cat 's toy");
    assert_eq!(segment(&model, "cat's", true), "cat's");
}

#[test]
fn bare_apostrophe_stays_alone() {
    let model = model_of(&["a", "b", "c"], true);
    assert_eq!(segment(&model, "a'", true), "a '");
    assert_eq!(segment(&model, "1'2", true), "1 ' 2");
    assert_eq!(segment(&model, "12", true), "12");
}

#[test]
fn sort_based_selection_is_kept() {
    let model = CostModel::from_ranked(&words(&["ab", "c"]), &vec![3, 5], true);
    // Pairing "c" with the prefix "ab" would give 3 + 5; the sorted window
    // [UNKNOWN, 3] pairs "c" with the unknown prefix "a" instead.
    let cost = build_cost_array(&model, "abc");
    assert_eq!(cost[3], UNKNOWN_COST);
    assert_ne!(cost[3], 8);
}

#[test]
fn two_unknown_fragments_cost_more_than_one() {
    let model = model_of(&["ab", "cd"], true);
    assert_eq!(segment(&model, "xy", true), "xy");
    assert_eq!(add_cost(UNKNOWN_COST, UNKNOWN_COST), INFINITE_COST);
    assert_eq!(add_cost(7, UNKNOWN_COST), UNKNOWN_COST);
    assert_eq!(add_cost(INFINITE_COST, 0), INFINITE_COST);
    assert_eq!(add_cost(3, 4), 7);
    assert_eq!(add_cost(UNKNOWN_COST - 1, 2), INFINITE_COST);
}

#[test]
fn empty_text_needs_no_model() {
    let mut lm = LanguageModel::new("missing.txt".to_string());
    assert_eq!(lm.split_wrapper(String::new()), "");
    assert_eq!(lm.split(String::new()), Ok(String::new()));
    assert!(!lm.is_loaded());
}

#[test]
fn set_cost_dict_only_builds() {
    let lm = LanguageModel::new("corpus.txt".to_string());
    let model = lm.set_cost_dict(&words(&["Hello", "world", "a"]), &vec![1, 2, 3]);
    assert!(!lm.is_loaded());
    assert_eq!(model.cost_of_key("hello"), 1);
    assert_eq!(model.max_word_len(), 5);
}

#[test]
fn empty_corpus_splits_every_character() {
    let model = CostModel::from_ranked(&Vec::new(), &Vec::new(), true);
    assert_eq!(model.max_word_len(), 0);
    assert_eq!(segment(&model, "abc", true), "a b c");
}

#[test]
fn cost_model_contents() {
    let ws = words(&["The", "héllo", "the"]);
    let costs = vec![5, 7, 9];
    let folded = CostModel::from_ranked(&ws, &costs, true);
    assert_eq!(folded.max_word_len(), 5);
    assert_eq!(folded.cost_of_key("the"), 9);
    assert_eq!(folded.cost_of_key("The"), UNKNOWN_COST);
    assert_eq!(folded.cost_of_fragment("HÉLLO"), 7);
    assert_eq!(folded.cost_of_fragment("THE"), 9);
    let exact = CostModel::from_ranked(&ws, &costs, false);
    assert_eq!(exact.cost_of_key("The"), 5);
    assert_eq!(exact.cost_of_fragment("THE"), UNKNOWN_COST);
    assert!(!exact.fold_case());
}

#[test]
fn rank_cost_formula() {
    let costs = rank_costs(8);
    // ln(1 * ln 8) and ln(8 * ln 8)
    assert_eq!(costs[0], 732099);
    assert_eq!(costs[7], 2811541);
}

#[test]
fn best_match_ties_go_to_the_shortest_split() {
    let model = CostModel::from_ranked(&words(&["ab", "b"]), &vec![10, 4], true);
    // The window at 2, sorted, is [MAX, 0]: "b" pairs with MAX, "ab" with 0.
    let cost = vec![0, UNKNOWN_COST, 0];
    let (c, k) = best_match(&model, "ab", &cost, 2);
    assert_eq!((c, k), (10, 2));
    let tie = CostModel::from_ranked(&words(&["ab", "b"]), &vec![4, 4], true);
    let cost = vec![0, 0];
    let (c, k) = best_match(&tie, "ab", &cost, 2);
    assert_eq!((c, k), (4, 1));
}

#[test]
fn cost_array_and_tokens() {
    let model = CostModel::from_ranked(&words(&["ab", "c"]), &vec![3, 5], true);
    let cost = build_cost_array(&model, "abc");
    assert_eq!(cost, vec![0, UNKNOWN_COST, 3, UNKNOWN_COST]);
    let tokens = minimal_cost(&model, "abc", &cost, true);
    assert_eq!(tokens, vec!["c".to_string(), "ab".to_string()]);
    assert_eq!(join_reversed(&tokens), "ab c");
}
