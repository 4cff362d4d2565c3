use text::jarowinkler::Score;
use text::JaroWinkler;

/// The similarity that a score's counts stand for, computed in the same
/// order of operations as the floating-point formula.
fn similarity(s: &Score) -> f64 {
    if s.shorter_len == 0 && s.longer_len == 0 {
        return 1.0;
    }
    if s.matches == 0 {
        return 0.0;
    }
    let t = s.transpositions as f64;
    let p = s.prefix as f64;
    let min_len = s.shorter_len as f64;
    let max_len = s.longer_len as f64;
    let m = s.matches as f64;
    let j = (m / min_len + m / max_len + (m - t) / m) / 3.0;
    j + 0.1 * p * (1.0 - j)
}

fn counts(s: &Score) -> (usize, usize, usize, usize, usize) {
    (s.matches, s.transpositions, s.prefix, s.shorter_len, s.longer_len)
}

#[test]
fn partial_match() {
    let mut jw = JaroWinkler::new();
    let score = jw.apply("Foo bar", "Food candybar");
    assert_eq!(similarity(&score), 0.7897435897435898);
}

#[test]
fn full_match() {
    let mut jw = JaroWinkler::new();
    let score = jw.apply("Foo bar", "Foo bar");
    assert_eq!(similarity(&score), 1.0);
}

#[test]
fn no_match() {
    let mut jw = JaroWinkler::new();
    let score = jw.apply("Foobar", "pqxyz");
    assert_eq!(similarity(&score), 0.0);
}

#[test]
fn partial_match_counts() {
    let mut jw = JaroWinkler::new();
    let score = jw.apply("Foo bar", "Food candybar");
    assert_eq!(counts(&score), (5, 0, 3, 7, 13));
}

#[test]
fn identical_strings_match_in_place() {
    let mut jw = JaroWinkler::new();
    assert_eq!(counts(&jw.apply("Foo bar", "Foo bar")), (7, 0, 4, 7, 7));
    assert_eq!(counts(&jw.apply("ab", "ab")), (2, 0, 2, 2, 2));
    assert_eq!(similarity(&jw.apply("a", "a")), 1.0);
    assert_eq!(similarity(&jw.apply("aaaa", "aaaa")), 1.0);
}

#[test]
fn empty_operands() {
    let mut jw = JaroWinkler::new();
    assert_eq!(similarity(&jw.apply("", "")), 1.0);
    assert_eq!(similarity(&jw.apply("", "abc")), 0.0);
    assert_eq!(similarity(&jw.apply("abc", "")), 0.0);
    assert_eq!(counts(&jw.apply("abc", "")), (0, 0, 0, 0, 3));
}

#[test]
fn transposed_pair() {
    let mut jw = JaroWinkler::new();
    let score = jw.apply("MARTHA", "MARHTA");
    assert_eq!(counts(&score), (6, 1, 3, 6, 6));
    assert!((similarity(&score) - 0.9611111111111111).abs() < 1e-12);
}

#[test]
fn window_limits_matches() {
    let mut jw = JaroWinkler::new();
    let score = jw.apply("DIXON", "DICKSONX");
    assert_eq!(counts(&score), (4, 0, 2, 5, 8));
    assert!((similarity(&score) - 0.8133333333333332).abs() < 1e-12);
}

#[test]
fn order_independent() {
    let mut jw = JaroWinkler::new();
    let pairs = [
        ("abcd", "abdc"),
        ("abcd", "acbd"),
        ("Hello world", "Hi world"),
        ("a", "abcdefgjlkasdflksldf"),
        ("ijsdfkjksjdfkjskdfjksdjf", "kaskdjfksjdkfjskdfjksdf"),
        ("abcdefghijklmnopqrstuvwxyz", "abcdefghijklmnopqrstuvwxzy"),
    ];
    for (a, b) in pairs {
        assert_eq!(jw.apply(a, b), jw.apply(b, a));
    }
}

#[test]
fn scores_within_unit_range() {
    let mut jw = JaroWinkler::new();
    let pairs = [("a", "b"), ("abcd", "afgh"), ("abcd", "abcdefghijkl"), ("xy", "yx")];
    for (a, b) in pairs {
        let s = similarity(&jw.apply(a, b));
        assert!((0.0..=1.0).contains(&s));
    }
}

#[test]
fn growing_buffers_keeps_results() {
    let long_a = "abcdefghijklmnopqrstuvwxyz0123456789abcdefghijklmnopqrstuvwxyz";
    let long_b = "abcdefghijklmnopqrstuvwxzy0123456789abcdefghijklmnopqrstuvwyxz";
    let mut grown = JaroWinkler::with_size(1);
    let first = grown.apply("ab", "ba");
    let after = grown.apply(long_a, long_b);
    let again = grown.apply("ab", "ba");
    let mut fresh = JaroWinkler::new();
    assert_eq!(after, fresh.apply(long_a, long_b));
    assert_eq!(first, again);
    assert_eq!(first, JaroWinkler::new().apply("ab", "ba"));
}
