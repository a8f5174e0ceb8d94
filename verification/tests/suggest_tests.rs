use spelling::levenshtein_distance;
use spelling::spell_check_rayon;
use spelling::spellcheck;

#[test]
fn test_spellcheck_orders_by_distance() {
    let dictionary = vec!["thin", "thing"];
    let result = spellcheck(&dictionary, "thinga", 3);
    assert_eq!(result, vec!["thing", "thin"]);
}

#[test]
fn test_spellcheck_finds_closest_first() {
    let dictionary = vec![
        "apple", "banana", "restart", "restaurant", "rest", "restoration", "taunt", "aunt",
        "restaurants",
    ];
    let result = spellcheck(&dictionary, "restaraunt", 3);
    assert!(!result.is_empty());
    assert_eq!(result[0], "restaurant");
}

#[test]
fn test_spellcheck_inclusive_ceiling() {
    // distance("flaw","lawn") == 2: a bound of 2 keeps it, a bound of 1 does not
    let dictionary = vec!["lawn"];
    assert_eq!(spellcheck(&dictionary, "flaw", 2), vec!["lawn"]);
    assert!(spellcheck(&dictionary, "flaw", 1).is_empty());
}

#[test]
fn test_spellcheck_empty_dictionary() {
    let dictionary: Vec<&str> = Vec::new();
    assert!(spellcheck(&dictionary, "anything", 5).is_empty());
}

#[test]
fn test_spellcheck_bound_zero() {
    let dictionary = vec!["word", "word", "sword", "ward"];
    assert_eq!(spellcheck(&dictionary, "word", 0), vec!["word", "word"]);
}

#[test]
fn test_spellcheck_stable_ties() {
    // equal distances keep dictionary order
    let dictionary = vec!["cat", "bat", "rat", "hat"];
    let result = spellcheck(&dictionary, "mat", 1);
    assert_eq!(result, vec!["cat", "bat", "rat", "hat"]);
}

#[test]
fn test_rayon_same_contents_sorted() {
    let dictionary = vec![
        "apple", "banana", "restart", "restaurant", "rest", "restoration", "taunt", "aunt",
        "restaurants",
    ];
    let word = "restaraunt";
    let max_distance = 4;
    let sequential = spellcheck(&dictionary, word, max_distance);
    let parallel = spell_check_rayon(&dictionary, word, max_distance);

    // same multiset of suggestions
    let mut seq_sorted = sequential.clone();
    seq_sorted.sort_unstable();
    let mut par_sorted = parallel.clone();
    par_sorted.sort_unstable();
    assert_eq!(seq_sorted, par_sorted);

    // non-decreasing distances, all within the bound
    let mut last: usize = 0;
    for candidate in &parallel {
        let d = levenshtein_distance(word, candidate);
        assert!(d >= last);
        assert!(d <= max_distance);
        last = d;
    }
    assert_eq!(parallel[0], "restaurant");
}

#[test]
fn test_rayon_filters_and_sorts() {
    // input order differs from distance order, and one entry is out of range
    let dictionary = vec!["abcdefgh", "ax", "a", "abc"];
    let result = spell_check_rayon(&dictionary, "a", 2);
    assert_eq!(result, vec!["a", "ax", "abc"]);
}
