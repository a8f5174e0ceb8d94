use spelling::levenshtein_distance;
use spelling::levenshtein_distance_with_max;

#[test]
fn test_dist_max() {
    assert_eq!(
        levenshtein_distance_with_max("saturday", "sunday", 3),
        Some(3)
    );
    assert_eq!(levenshtein_distance_with_max("saturday", "sunday", 2), None);
    assert_eq!(levenshtein_distance_with_max("resta", "br", 3), None);
}

#[test]
fn test_levenshtein_distance() {
    // kitten -> sitten -> sittin -> sitting
    assert_eq!(levenshtein_distance("kitten", "sitting"), 3);
    // flaw -> flawn -> lawn
    assert_eq!(levenshtein_distance("flaw", "lawn"), 2);
    // intention -> entention -> extention -> exention -> exection -> execution
    assert_eq!(levenshtein_distance("intention", "execution"), 5);
    // saturday -> sturday -> surday -> sunday
    assert_eq!(levenshtein_distance("saturday", "sunday"), 3);

    assert_eq!(levenshtein_distance("", ""), 0);
    assert_eq!(levenshtein_distance("test", ""), 4);
    assert_eq!(levenshtein_distance("", "test"), 4);
    assert_eq!(levenshtein_distance("rust", "rust"), 0);
    assert_eq!(levenshtein_distance("a", "a"), 0);
    assert_eq!(levenshtein_distance("a", "b"), 1);
    assert_eq!(levenshtein_distance("ac", "abc"), 1);
    assert_eq!(levenshtein_distance("abc", "ac"), 1);
    assert_eq!(levenshtein_distance("test", "testing"), 3);
    assert_eq!(levenshtein_distance("gumbo", "gambol"), 2);
    assert_eq!(levenshtein_distance("intention", "execution"), 5);
    assert_eq!(levenshtein_distance("book", "back"), 2);
    assert_eq!(levenshtein_distance("Test", "test"), 1);
    assert_eq!(levenshtein_distance("ORANGE", "orange"), 6);
    assert_eq!(levenshtein_distance("short", "a much longer string"), 16);
    assert_eq!(levenshtein_distance("a much longer string", "short"), 16);
    assert_eq!(levenshtein_distance("aaaaa", "bbbbb"), 5);
    assert_eq!(levenshtein_distance("ababab", "bababa"), 2);
    assert_eq!(levenshtein_distance("bbbaaa", "aaabbb"), 6);
    assert_eq!(levenshtein_distance("ab", "ba"), 2);
    assert_eq!(levenshtein_distance("algorithm", "logarithm"), 3);
    assert_eq!(levenshtein_distance("abcdef", "abcfed"), 2);
    assert_eq!(levenshtein_distance("crème brûlée", "creme brulee"), 3);
    assert_eq!(levenshtein_distance("你好世界", "你好"), 2);
    assert_eq!(levenshtein_distance("привет", "приветствие"), 5);
    assert_eq!(levenshtein_distance("a", "à"), 1);
    assert_eq!(levenshtein_distance("Schrödinger", "Schrodinger"), 1);
    assert_eq!(levenshtein_distance("İ", "I"), 1);
    assert_eq!(
        levenshtein_distance(
            "the quick brown fox jumps over the lazy dog",
            "the lazy brown dog jumps over the quick fox"
        ),
        14
    );
    assert_eq!(
        levenshtein_distance("this is a long sentence.", "this sentence is long."),
        15
    );
    assert_eq!(levenshtein_distance("1234567890", "0987654321"), 10);
}

#[test]
fn test_symmetry_concrete() {
    for (a, b) in [
        ("kitten", "sitting"),
        ("", "test"),
        ("gumbo", "gambol"),
        ("привет", "приветствие"),
    ] {
        assert_eq!(levenshtein_distance(a, b), levenshtein_distance(b, a));
    }
}

#[test]
fn test_identity_concrete() {
    for a in ["", "a", "rust", "crème brûlée", "你好世界"] {
        assert_eq!(levenshtein_distance(a, a), 0);
    }
}

#[test]
fn test_triangle_concrete() {
    let words = ["kitten", "sitting", "sunday", "saturday", "", "a"];
    for a in words {
        for b in words {
            for c in words {
                let ac = levenshtein_distance(a, c);
                let ab = levenshtein_distance(a, b);
                let bc = levenshtein_distance(b, c);
                assert!(ac <= ab + bc);
            }
        }
    }
}

#[test]
fn test_bounded_unbounded_agreement() {
    let cases = [
        ("kitten", "sitting"),
        ("saturday", "sunday"),
        ("", "test"),
        ("abcdef", "abcfed"),
        ("crème brûlée", "creme brulee"),
    ];
    for (a, b) in cases {
        let d = levenshtein_distance(a, b);
        for max in 0usize..10 {
            let bounded = levenshtein_distance_with_max(a, b, max);
            if d <= max {
                assert_eq!(bounded, Some(d));
            } else {
                assert_eq!(bounded, None);
            }
        }
    }
}

#[test]
fn test_unicode_unit_counting() {
    // one scalar-value substitution, not a byte-level count
    assert_eq!(levenshtein_distance("à", "a"), 1);
    assert_eq!(levenshtein_distance_with_max("à", "a", 1), Some(1));
}

#[test]
fn test_length_gap_rejection() {
    assert_eq!(levenshtein_distance_with_max("a", "abcdefg", 2), None);
}

#[test]
fn test_bound_zero_exact_match_only() {
    assert_eq!(levenshtein_distance_with_max("same", "same", 0), Some(0));
    assert_eq!(levenshtein_distance_with_max("same", "same!", 0), None);
    assert_eq!(levenshtein_distance_with_max("same", "samo", 0), None);
    assert_eq!(levenshtein_distance_with_max("", "", 0), Some(0));
}

#[test]
fn test_wide_bound() {
    assert_eq!(
        levenshtein_distance_with_max("short", "a much longer string", 100),
        Some(16)
    );
}
