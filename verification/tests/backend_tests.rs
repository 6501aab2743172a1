use polski_ls::chars::is_word_char;
use polski_ls::diagnostics::find_unknown_words;
use polski_ls::dictionary::FuzzyMatchResult;
use polski_ls::dictionary::SimpleDictionary;
use polski_ls::ranker::apply_capitalization;
use polski_ls::ranker::calculate_completion_score;
use polski_ls::ranker::completion_candidates;
use polski_ls::ranker::max_distance_for;
use polski_ls::ranker::suggestions_for;
use polski_ls::tokenizer::extract_words;
use polski_ls::tokenizer::find_word_start;
use polski_ls::tokenizer::word_bounds_at;

#[test]
fn test_is_word_char_ascii() {
    assert!(is_word_char('a'));
    assert!(is_word_char('Z'));
    assert!(is_word_char('5'));
    assert!(!is_word_char(' '));
    assert!(!is_word_char('.'));
    assert!(!is_word_char('\n'));
}

#[test]
fn test_is_word_char_polish() {
    assert!(is_word_char('ą'));
    assert!(is_word_char('Ą'));
    assert!(is_word_char('ć'));
    assert!(is_word_char('ę'));
    assert!(is_word_char('ł'));
    assert!(is_word_char('ń'));
    assert!(is_word_char('ó'));
    assert!(is_word_char('ś'));
    assert!(is_word_char('ź'));
    assert!(is_word_char('ż'));
    assert!(is_word_char('Ż'));
}

#[test]
fn test_apply_capitalization_lowercase() {
    let original: Vec<char> = "słodko".chars().collect();
    assert_eq!(apply_capitalization(&original, "słodki"), "słodki");
}

#[test]
fn test_apply_capitalization_uppercase() {
    let original: Vec<char> = "Słodko".chars().collect();
    assert_eq!(apply_capitalization(&original, "słodki"), "Słodki");
}

#[test]
fn test_apply_capitalization_polish_uppercase() {
    let original: Vec<char> = "Żółty".chars().collect();
    assert_eq!(apply_capitalization(&original, "żółw"), "Żółw");
}

#[test]
fn test_apply_capitalization_empty() {
    let original: Vec<char> = Vec::new();
    assert_eq!(apply_capitalization(&original, "test"), "test");
}

#[test]
fn test_extract_words() {
    let source: Vec<char> = "cześć świat".chars().collect();
    let words = extract_words(&source);
    assert_eq!(words.len(), 2);

    let word1: String = words[0].0.iter().collect();
    assert_eq!(word1, "cześć");
    assert_eq!(words[0].1, 0); // start
    assert_eq!(words[0].2, 5); // end

    let word2: String = words[1].0.iter().collect();
    assert_eq!(word2, "świat");
}

#[test]
fn test_extract_words_with_punctuation() {
    let source: Vec<char> = "Dzień, dobry!".chars().collect();
    let words = extract_words(&source);
    assert_eq!(words.len(), 2);

    let word1: String = words[0].0.iter().collect();
    assert_eq!(word1, "Dzień");

    let word2: String = words[1].0.iter().collect();
    assert_eq!(word2, "dobry");
}

#[test]
fn test_extract_words_spans_exclude_punctuation() {
    let source: Vec<char> = "Dzień, dobry!".chars().collect();
    let words = extract_words(&source);
    assert_eq!(words.len(), 2);
    assert_eq!((words[0].1, words[0].2), (0, 5));
    assert_eq!((words[1].1, words[1].2), (7, 12));
}

#[test]
fn test_calculate_completion_score_exact_match() {
    let query: Vec<char> = "test".chars().collect();
    let candidate: Vec<char> = "test".chars().collect();
    let score = calculate_completion_score(&query, &candidate, 0, false);
    // 100 (base) + 50 (first letter) + 32 (4 chars prefix match * 8)
    assert_eq!(score as f32, 182.0);
}

#[test]
fn test_calculate_completion_score_common_word_bonus() {
    let query: Vec<char> = "test".chars().collect();
    let candidate: Vec<char> = "test".chars().collect();
    let score_common = calculate_completion_score(&query, &candidate, 0, true);
    let score_normal = calculate_completion_score(&query, &candidate, 0, false);
    assert_eq!((score_common - score_normal) as f32, 35.0);
}

#[test]
fn test_calculate_completion_score_edit_distance_penalty() {
    let query: Vec<char> = "test".chars().collect();
    let candidate: Vec<char> = "tест".chars().collect();
    let score_0 = calculate_completion_score(&query, &candidate, 0, false);
    let score_1 = calculate_completion_score(&query, &candidate, 1, false);
    let score_2 = calculate_completion_score(&query, &candidate, 2, false);
    assert!(score_0 > score_1);
    assert!(score_1 > score_2);
}

#[test]
fn test_max_distance_for_budget_rule() {
    assert_eq!(max_distance_for(0), 1);
    assert_eq!(max_distance_for(3), 1);
    assert_eq!(max_distance_for(4), 2);
    assert_eq!(max_distance_for(100), 2);
}

#[test]
fn test_find_word_start_and_bounds() {
    let source: Vec<char> = "ala ma kota".chars().collect();
    // Cursor inside "kota".
    assert_eq!(find_word_start(&source, 9), 7);
    // Cursor just after "ala".
    assert_eq!(find_word_start(&source, 3), 0);
    // Cursor on the space: no word behind it.
    assert_eq!(find_word_start(&source, 4), 4);
    assert_eq!(word_bounds_at(&source, 8), (7, 11));
    assert_eq!(word_bounds_at(&source, 3), (0, 3));
}

#[test]
fn test_find_unknown_words() {
    let mut dict = SimpleDictionary::new();
    dict.add_word("dobry", false);
    let source: Vec<char> = "dobry wieczor 123 ok".chars().collect();
    let unknown = find_unknown_words(&dict, &source);
    // "dobry" is known, "123" is numeric, "ok" is too short:
    // only "wieczor" is reported.
    assert_eq!(unknown.len(), 1);
    let w: String = unknown[0].0.iter().collect();
    assert_eq!(w, "wieczor");
    assert_eq!((unknown[0].1, unknown[0].2), (6, 13));
}

#[test]
fn test_completion_candidates_ranked() {
    let mut dict = SimpleDictionary::new();
    dict.add_word("test", false);
    dict.add_word("text", false);
    let prefix: Vec<char> = "test".chars().collect();
    let cands = completion_candidates(&dict, &prefix);
    assert!(cands.len() >= 1);
    assert!(cands.len() <= 50);
    // The exact match scores highest.
    assert_eq!(cands[0].text, "test");
    for w in cands.windows(2) {
        assert!(w[0].score >= w[1].score);
    }
}

#[test]
fn test_completion_candidates_short_prefix() {
    let mut dict = SimpleDictionary::new();
    dict.add_word("test", false);
    let prefix: Vec<char> = "t".chars().collect();
    let cands = completion_candidates(&dict, &prefix);
    assert!(cands.is_empty());
}

#[test]
fn test_suggestions_for_capitalized_word() {
    let word: Vec<char> = "Tesk".chars().collect();
    let matches = vec![FuzzyMatchResult {
        word: "test".chars().collect(),
        edit_distance: 1,
        is_common: false,
    }];
    let suggestions = suggestions_for(&word, &matches);
    assert_eq!(suggestions, vec!["Test".to_string()]);
}
