use levenshtein_lite::levenshtein_distance;

#[test]
fn basic_distance() {
    let pairs = vec![
        ("abc", 0),
        ("ac", 1),
        ("aa", 2),
        ("a", 2),
        ("abcxx", 2),
        ("axc", 1),
        ("bbc", 1),
        ("aaa", 2),
        ("ccc", 2),
        ("abbbc", 2),
        ("aabbc", 2),
        ("", 3),
        ("xxx", 3),
        ("aabbcc", 3),
        ("abcabc", 3),
        ("zzyzzx", 6),
    ];

    for (s, d) in pairs {
        let res = levenshtein_distance("abc", s);
        println!(
            "Expecting '{}' to be distance {} from 'abc', got {}",
            s, d, res
        );
        assert!(res == d);
    }
}

#[test]
fn distance_spot_checks() {
    assert_eq!(levenshtein_distance("abc", ""), 3);
    assert_eq!(levenshtein_distance("abc", "zzyzzx"), 6);
    assert_eq!(levenshtein_distance("abc", "abcabc"), 3);
    assert_eq!(levenshtein_distance("abc", "axc"), 1);
}

#[test]
fn distance_symmetric() {
    let samples = ["", "a", "abc", "kitten", "sitting", "Levenshtein", "abab"];
    for a in samples {
        for b in samples {
            assert_eq!(levenshtein_distance(a, b), levenshtein_distance(b, a));
        }
    }
}

#[test]
fn distance_self_is_zero() {
    for s in ["", "a", "abc", "Levenshtein", "zzyzzx"] {
        assert_eq!(levenshtein_distance(s, s), 0);
    }
}

#[test]
fn distance_bounded_by_total_length() {
    let samples = ["", "a", "abc", "kitten", "sitting", "zzyzzx"];
    for a in samples {
        for b in samples {
            let d = levenshtein_distance(a, b);
            assert!(0 <= d);
            assert!(d as usize <= a.chars().count() + b.chars().count());
        }
    }
}
