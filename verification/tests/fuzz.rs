use levenshtein_lite::{levenshtein_distance, LevenshteinAutomata};
use rand::Rng;

#[test]
fn fuzz_automata() {
    let mut rng = rand::thread_rng();
    let mut rand_mutate = |s: &str, d: i8| {
        loop {
            let mut chars = s.chars().collect::<Vec<char>>();
            for _ in 0..d {
                if (chars.len() as i8) < d {
                    chars.push('I');
                    continue;
                }
                match rng.gen_range(0..3) {
                    0 => {
                        // substitute
                        let idx = rng.gen_range(0..chars.len());
                        chars[idx] = 'S';
                    }
                    1 => {
                        // insert
                        let idx = rng.gen_range(0..chars.len() + 1);
                        if idx == chars.len() {
                            chars.push('I');
                        } else {
                            chars.insert(idx, 'I');
                        }
                    }
                    2 => {
                        // delete
                        let idx = rng.gen_range(0..chars.len());
                        chars.remove(idx);
                    }
                    _ => panic!("RNG outside range"),
                }
            }
            let mutated = String::from_iter(chars);
            let actual_distance = levenshtein_distance(s, &mutated);
            if actual_distance == d as i32 {
                return mutated;
            }
        }
    };

    let test_strings = vec![
        "",
        "aaaaaaaaaa",
        "bbbbaaaaaaa",
        "babababab",
        "abc",
        "aaabbbccc",
        "abbccc",
        "quququq",
        "asdfgaerr",
        "session",
        "lmao",
        "lol",
        "abcabcabc",
        "aaaabbbb",
        "2aj90v",
        "d4gaw",
        "dg9xx",
        "zck6om9kl",
        "nk3wadg",
        "7txelyfa5v2",
        "v6a8",
        "5",
        "9nic10",
        "8y",
        "c4ugsnjor2",
        "sao9w4v79",
        "o64hc79huh",
        "k2cy053nf",
        "l7h",
        "eytcy",
        "qk",
        "x3tr2lhyfnp",
        "n39h8tcqee",
        "xwm",
        "993xn68um",
        "fukvwehhw",
        "m6ca",
        "vbbwwszxr2",
        "sgeey",
        "4eqd",
        "26tw9qfm",
    ];

    let runs = 100;
    let num_distances = 5;

    for test_str in test_strings {
        for lda_d in 0..num_distances {
            println!("Generating automata for {} with distance {}", test_str, lda_d);
            let lda = LevenshteinAutomata::new(test_str, lda_d);
            for mut_d in 0..lda_d + 2 {
                for _ in 0..runs {
                    let test_case = rand_mutate(test_str, mut_d);
                    assert!(lda.check(&test_case) == (mut_d <= lda_d));
                }
            }
        }
    }
}
