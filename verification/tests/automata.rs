use levenshtein_lite::{levenshtein_distance, LevenshteinAutomata};

#[test]
fn basic_automata() {
    let lda = LevenshteinAutomata::new("abc", 2);

    let expect_match = vec![
        "abc", "ac", "aa", "a", "abcxx", "axc", "bbc", "aaa", "ccc", "abbbc", "aabbc",
    ];

    for input in expect_match {
        println!("Expecting match against '{}'", input);
        assert!(lda.check(input));
    }

    let expect_no_match = vec!["", "xxx", "aabbcc", "abcabc", "zzyzzx"];

    for input in expect_no_match {
        println!("Expecting no match against '{}'", input);
        assert!(!lda.check(input))
    }
}

#[test]
fn scenario_table() {
    let cases: Vec<(&str, i8, &str, bool)> = vec![
        ("abc", 2, "abc", true),
        ("abc", 2, "", false),
        ("abc", 2, "axc", true),
        ("abc", 2, "aabbc", true),
        ("abc", 2, "aabbcc", false),
        ("abc", 1, "axx", false),
        ("abc", 0, "abc", true),
        ("abc", 0, "abx", false),
        ("Levenshtein", 1, "Levenshtein", true),
        ("Levenshtein", 1, "Xevenshteinx", false),
    ];
    for (p, k, q, expected) in cases {
        let lda = LevenshteinAutomata::new(p, k);
        assert_eq!(lda.check(q), expected, "pattern {} k {} input {}", p, k, q);
    }
}

// A wildcard self-loop under remaining budget must also fire when extra
// input characters remain past the end of the pattern.
#[test]
fn extra_character_past_end() {
    let lda = LevenshteinAutomata::new("abc", 1);
    assert!(lda.check("abcd"));
}

#[test]
fn agreement_with_exact_distance() {
    let patterns = ["", "a", "abc", "abab", "Levenshtein", "aaabbbccc"];
    let inputs = [
        "",
        "a",
        "b",
        "abc",
        "abcd",
        "axc",
        "abab",
        "baba",
        "Levenshtein",
        "Levenshteim",
        "aaabbbccc",
        "zzz",
    ];
    for p in patterns {
        for k in 0i8..4 {
            let lda = LevenshteinAutomata::new(p, k);
            for q in inputs {
                let expected = levenshtein_distance(p, q) <= k as i32;
                assert_eq!(
                    lda.check(q),
                    expected,
                    "pattern {} k {} input {}",
                    p,
                    k,
                    q
                );
            }
        }
    }
}

#[test]
fn monotonic_in_budget() {
    let patterns = ["abc", "abab", "Levenshtein"];
    let inputs = ["", "a", "abc", "abd", "xyz", "ababab", "Levenshteinxx"];
    for p in patterns {
        for k1 in 0i8..3 {
            for k2 in k1..4 {
                let a1 = LevenshteinAutomata::new(p, k1);
                let a2 = LevenshteinAutomata::new(p, k2);
                for q in inputs {
                    if a1.check(q) {
                        assert!(a2.check(q), "pattern {} k1 {} k2 {} input {}", p, k1, k2, q);
                    }
                }
            }
        }
    }
}

#[test]
fn accepts_own_pattern() {
    for p in ["", "a", "abc", "Levenshtein", "zzyzzx"] {
        for k in 0i8..4 {
            let lda = LevenshteinAutomata::new(p, k);
            assert!(lda.check(p), "pattern {} k {}", p, k);
        }
    }
}

#[test]
fn deterministic_across_builds() {
    let inputs = ["", "a", "ab", "abc", "abcd", "xbc", "axc", "abx", "xyz"];
    for (p, k) in [("abc", 1i8), ("abab", 2), ("Levenshtein", 3)] {
        let a1 = LevenshteinAutomata::new(p, k);
        let a2 = LevenshteinAutomata::new(p, k);
        for q in inputs {
            assert_eq!(a1.check(q), a2.check(q), "pattern {} k {} input {}", p, k, q);
        }
    }
}

#[test]
fn details_returns_parameters() {
    let lda = LevenshteinAutomata::new("abc", 1);
    let (s, d) = lda.details();
    assert!((s, d) == ("abc", 1));
}

#[test]
fn empty_input_accepted_iff_pattern_within_budget() {
    for (p, k, expected) in [("abc", 2i8, false), ("abc", 3, true), ("ab", 2, true), ("", 0, true)]
    {
        let lda = LevenshteinAutomata::new(p, k);
        assert_eq!(lda.check(""), expected, "pattern {} k {}", p, k);
    }
}

#[test]
fn zero_budget_accepts_exactly_the_pattern() {
    let lda = LevenshteinAutomata::new("abc", 0);
    assert!(lda.check("abc"));
    for q in ["", "ab", "abcd", "abx", "xbc", "acb"] {
        assert!(!lda.check(q), "input {}", q);
    }
}
