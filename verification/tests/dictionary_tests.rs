use polski_ls::dictionary::Dictionary;
use polski_ls::dictionary::SimpleDictionary;
use polski_ls::distance::levenshtein_distance;

#[test]
fn test_levenshtein_same() {
    let a: Vec<char> = "hello".chars().collect();
    let b: Vec<char> = "hello".chars().collect();
    assert_eq!(levenshtein_distance(&a, &b), 0);
}

#[test]
fn test_levenshtein_one_char_diff() {
    let a: Vec<char> = "hello".chars().collect();
    let b: Vec<char> = "hallo".chars().collect();
    assert_eq!(levenshtein_distance(&a, &b), 1);
}

#[test]
fn test_levenshtein_insertion() {
    let a: Vec<char> = "helo".chars().collect();
    let b: Vec<char> = "hello".chars().collect();
    assert_eq!(levenshtein_distance(&a, &b), 1);
}

#[test]
fn test_levenshtein_deletion() {
    let a: Vec<char> = "hello".chars().collect();
    let b: Vec<char> = "helo".chars().collect();
    assert_eq!(levenshtein_distance(&a, &b), 1);
}

#[test]
fn test_levenshtein_empty() {
    let a: Vec<char> = "".chars().collect();
    let b: Vec<char> = "hello".chars().collect();
    assert_eq!(levenshtein_distance(&a, &b), 5);
}

#[test]
fn test_fuzzy_match() {
    let mut dict = SimpleDictionary::new();
    dict.add_word("dzień", true);
    dict.add_word("dziecko", false);
    dict.add_word("dzisiaj", false);

    let prefix: Vec<char> = "dzie".chars().collect();
    let results = dict.fuzzy_match(&prefix, 2, 10);

    assert!(!results.is_empty());
    // "dzień" should match with edit distance 1
    assert!(results.iter().any(|r| {
        let word: String = r.word.iter().collect();
        word == "dzień" && r.edit_distance == 1
    }));
}

#[test]
fn test_case_insensitive() {
    let a: Vec<char> = "Hello".chars().collect();
    let b: Vec<char> = "hello".chars().collect();
    assert_eq!(levenshtein_distance(&a, &b), 0);
}

#[test]
fn test_embedded_dictionary() {
    let dict = SimpleDictionary::embedded();
    // Should have words from the baseline list
    let prefix: Vec<char> = "dzień".chars().collect();
    let results = dict.fuzzy_match(&prefix, 0, 10);
    assert!(!results.is_empty());
    let word: String = results[0].word.iter().collect();
    assert_eq!(word, "dzień");
    assert!(results[0].is_common); // marked with * in the baseline list
}

#[test]
fn test_contains() {
    let dict = SimpleDictionary::embedded();
    // Common word should be found
    let word: Vec<char> = "dzień".chars().collect();
    assert!(dict.contains(&word));

    // Case-insensitive
    let word_upper: Vec<char> = "DZIEŃ".chars().collect();
    assert!(dict.contains(&word_upper));

    // Non-existent word
    let unknown: Vec<char> = "xyz123".chars().collect();
    assert!(!dict.contains(&unknown));
}

#[test]
fn test_contains_case_insensitive() {
    let mut dict = SimpleDictionary::new();
    dict.add_word("dzień", false);

    let lower: Vec<char> = "dzień".chars().collect();
    let upper: Vec<char> = "DZIEŃ".chars().collect();
    let title: Vec<char> = "Dzień".chars().collect();
    assert!(dict.contains(&lower));
    assert!(dict.contains(&upper));
    assert!(dict.contains(&title));
}

#[test]
fn test_add_word_idempotent() {
    let mut dict = SimpleDictionary::new();
    dict.add_word("dzień", false);
    assert_eq!(dict.len(), 1);
    dict.add_word("dzień", false);
    assert_eq!(dict.len(), 1);
    // Case-insensitively equal words count as already present.
    dict.add_word("DZIEŃ", true);
    assert_eq!(dict.len(), 1);
    dict.add_word("dobry", true);
    assert_eq!(dict.len(), 2);
}

#[test]
fn test_distance_metric_properties() {
    let a: Vec<char> = "kot".chars().collect();
    let b: Vec<char> = "kos".chars().collect();
    let c: Vec<char> = "sok".chars().collect();

    // Identity, symmetry, triangle inequality on concrete values.
    assert_eq!(levenshtein_distance(&a, &a), 0);
    assert_eq!(levenshtein_distance(&a, &b), levenshtein_distance(&b, &a));
    let ac = levenshtein_distance(&a, &c);
    let ab = levenshtein_distance(&a, &b);
    let bc = levenshtein_distance(&b, &c);
    assert!(ac <= ab + bc);
}

#[test]
fn test_levenshtein_cap() {
    let a: Vec<char> = Vec::new();
    let b: Vec<char> = vec!['a'; 300];
    // The distance saturates at the cap.
    assert_eq!(levenshtein_distance(&a, &b), 255);
}

#[test]
fn test_fuzzy_match_sorted_and_bounded() {
    let mut dict = SimpleDictionary::new();
    dict.add_word("dzbanek", false); // too far from "dzien": filtered out
    dict.add_word("dziena", false); // distance 1, uncommon
    dict.add_word("dzien", true); // distance 0, common
    dict.add_word("dzienx", false); // distance 1, uncommon
    dict.add_word("dziens", true); // distance 1, common

    let prefix: Vec<char> = "dzien".chars().collect();
    let results = dict.fuzzy_match(&prefix, 2, 3);

    // Never more than max_results.
    assert!(results.len() <= 3);
    // Sorted by distance ascending, common before uncommon.
    for w in results.windows(2) {
        let ka = (w[0].edit_distance, !w[0].is_common);
        let kb = (w[1].edit_distance, !w[1].is_common);
        assert!(ka <= kb);
    }
    // Exact match first, then the common distance-1 word, then the
    // first uncommon distance-1 word in store order.
    let words: Vec<String> = results.iter().map(|r| r.word.iter().collect()).collect();
    assert_eq!(words, vec!["dzien", "dziens", "dziena"]);
}

#[test]
fn test_parse_word_list() {
    let mut dict = SimpleDictionary::new();
    dict.parse_word_list("# comment\n\n  *dzień\n dobry \n\t\nkot");
    assert_eq!(dict.len(), 3);

    let starred: Vec<char> = "dzień".chars().collect();
    assert!(dict.contains(&starred));
    let trimmed: Vec<char> = "dobry".chars().collect();
    assert!(dict.contains(&trimmed));
    let plain: Vec<char> = "kot".chars().collect();
    assert!(dict.contains(&plain));
    let comment: Vec<char> = "comment".chars().collect();
    assert!(!dict.contains(&comment));

    // The starred word kept its flag; the others are uncommon.
    let q: Vec<char> = "dzień".chars().collect();
    let r = dict.fuzzy_match(&q, 0, 10);
    assert_eq!(r.len(), 1);
    assert!(r[0].is_common);
    let q2: Vec<char> = "kot".chars().collect();
    let r2 = dict.fuzzy_match(&q2, 0, 10);
    assert_eq!(r2.len(), 1);
    assert!(!r2[0].is_common);
}
