use jarowinkler::{JaroWinkler, Similarity};

/// The standard Jaro-Winkler combination of the verified integer quantities.
fn score_value(sim: Similarity) -> f64 {
    match sim {
        Similarity::Identical => 1.0,
        Similarity::Disjoint => 0.0,
        Similarity::Partial { matches, transpositions, prefix_len, min_len, max_len } => {
            let m = matches as f64;
            let t = transpositions as f64;
            let p = prefix_len as f64;
            let j = (m / min_len as f64 + m / max_len as f64 + (m - t) / m) / 3.0;
            j + 0.1 * p * (1.0 - j)
        }
    }
}

fn score_of(jw: &mut JaroWinkler, s1: &str, s2: &str) -> f64 {
    score_value(jw.apply(s1, s2))
}

#[test]
fn partial_match() {
    let mut jw = JaroWinkler::new();
    let score = score_value(jw.apply("Foo bar", "Food candybar"));
    assert_eq!(score, 0.7897435897435898);
}

#[test]
fn full_match() {
    let mut jw = JaroWinkler::new();
    let score = score_value(jw.apply("Foo bar", "Foo bar"));
    assert_eq!(score, 1.0);
}

#[test]
fn no_match() {
    let mut jw = JaroWinkler::new();
    let score = score_value(jw.apply("Foobar", "pqxyz"));
    assert_eq!(score, 0.0);
}

#[test]
fn classic_reference_pair() {
    let mut jw = JaroWinkler::new();
    let score = score_of(&mut jw, "martha", "marhta");
    assert_eq!(score, 0.9611111111111111);
}

#[test]
fn classic_reference_pair_quantities() {
    let mut jw = JaroWinkler::new();
    let sim = jw.apply("martha", "marhta");
    assert_eq!(
        sim,
        Similarity::Partial {
            matches: 6,
            transpositions: 1,
            prefix_len: 3,
            min_len: 6,
            max_len: 6,
        }
    );
}

#[test]
fn both_empty() {
    let mut jw = JaroWinkler::new();
    assert_eq!(jw.apply("", ""), Similarity::Identical);
    assert_eq!(score_of(&mut jw, "", ""), 1.0);
}

#[test]
fn one_empty() {
    let mut jw = JaroWinkler::new();
    assert_eq!(score_of(&mut jw, "a", ""), 0.0);
    assert_eq!(score_of(&mut jw, "", "a"), 0.0);
    assert_eq!(score_of(&mut jw, "", "nonempty"), 0.0);
    assert_eq!(score_of(&mut jw, "nonempty", ""), 0.0);
}

#[test]
fn identical_inputs_score_one() {
    let mut jw = JaroWinkler::new();
    for s in ["a", "ab", "abc", "abcd", "abcdefghij", "Foo bar", "martha"] {
        assert_eq!(score_of(&mut jw, s, s), 1.0);
    }
}

#[test]
fn symmetry() {
    let mut jw = JaroWinkler::new();
    let pairs = [
        ("Foo bar", "Food candybar"),
        ("martha", "marhta"),
        ("abcd", "badc"),
        ("Foobar", "pqxyz"),
        ("dixon", "dicksonx"),
        ("aab", "aba"),
        ("abc", "xyz"),
        ("x", "xylophone"),
    ];
    for (a, b) in pairs {
        assert_eq!(score_of(&mut jw, a, b), score_of(&mut jw, b, a));
    }
}

#[test]
fn scores_stay_in_unit_interval() {
    let mut jw = JaroWinkler::new();
    let pairs = [
        ("", ""),
        ("", "abc"),
        ("a", "a"),
        ("a", "b"),
        ("Foo bar", "Food candybar"),
        ("martha", "marhta"),
        ("dwayne", "duane"),
        ("dixon", "dicksonx"),
        ("aaaaaaaaaa", "aaaaa"),
        ("abcdefgh", "hgfedcba"),
    ];
    for (a, b) in pairs {
        let s = score_of(&mut jw, a, b);
        assert!((0.0..=1.0).contains(&s), "score {s} out of range for {a:?} / {b:?}");
    }
}

#[test]
fn buffer_growth_is_not_observable() {
    // A scorer that starts tiny and grows call by call must report the same
    // values as one sized large enough from construction.
    let long_a = "the quick brown fox jumps over the lazy dog".repeat(4);
    let long_b = "the quick brown dog leaps over the lazy fox".repeat(4);
    let inputs = [
        ("ab", "ba"),
        ("martha", "marhta"),
        ("Foo bar", "Food candybar"),
        (&long_a[..60], &long_b[..80]),
        (&long_a[..], &long_b[..]),
    ];
    let mut growing = JaroWinkler::with_size(1);
    let mut presized = JaroWinkler::with_size(4096);
    for (a, b) in inputs {
        assert_eq!(growing.apply(a, b), presized.apply(a, b));
    }
}

#[test]
fn scorer_reuse_leaves_no_residue() {
    // Back-to-back calls on one scorer give the same values as fresh scorers.
    let mut jw = JaroWinkler::new();
    let first = jw.apply("Foo bar", "Food candybar");
    let between = jw.apply("martha", "marhta");
    let second = jw.apply("Foo bar", "Food candybar");
    assert_eq!(first, second);
    assert_eq!(between, JaroWinkler::new().apply("martha", "marhta"));
}

#[test]
fn with_size_zero_still_scores() {
    let mut jw = JaroWinkler::with_size(0);
    assert_eq!(score_of(&mut jw, "martha", "marhta"), 0.9611111111111111);
    let mut dflt = JaroWinkler::default();
    assert_eq!(score_of(&mut dflt, "martha", "marhta"), 0.9611111111111111);
}

#[test]
fn no_match_within_window() {
    // The only shared byte sits too far outside the matching window.
    let mut jw = JaroWinkler::new();
    assert_eq!(jw.apply("a", "zzzzzzzza"), Similarity::Disjoint);
}

#[test]
fn comparison_is_byte_wise() {
    // "\u{e9}" and "\u{e8}" encode as two bytes each and share their first
    // byte, so the byte-wise scan finds one match; a character-wise scan
    // would find none.
    let mut jw = JaroWinkler::new();
    let sim = jw.apply("\u{e9}", "\u{e8}");
    assert_eq!(
        sim,
        Similarity::Partial {
            matches: 1,
            transpositions: 0,
            prefix_len: 1,
            min_len: 2,
            max_len: 2,
        }
    );
}

#[test]
fn prefix_bonus_is_capped_at_four() {
    let mut jw = JaroWinkler::new();
    let sim = jw.apply("abcdefgh", "abcdefxy");
    match sim {
        Similarity::Partial { prefix_len, .. } => assert_eq!(prefix_len, 4),
        _ => panic!("expected a partial match"),
    }
}
