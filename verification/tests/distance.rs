use linkmod::distance::{levenshtein, levenshtein_insensitive};

#[test]
fn levenshtein_zero_distance() {
    let result = levenshtein("test", "test");
    assert_eq!(result, 0);
}

#[test]
fn levenshtein_distance_calc() {
    let result = levenshtein("some string", "completely different");
    assert_eq!(result, 14);
}

#[test]
fn levenshtein_insensitive_exact() {
    let result = levenshtein_insensitive("some string", "so'me_stRIng");
    assert_eq!(result, 0);
}

#[test]
fn levenshtein_insensitive_calc() {
    let result = levenshtein_insensitive("some str'ing", "com'pleTELY-DIFf'erent");
    assert_eq!(result, 14);
}

#[test]
fn levenshtein_self_is_zero() {
    assert_eq!(levenshtein("", ""), 0);
    assert_eq!(levenshtein("a", "a"), 0);
    assert_eq!(levenshtein("ratio", "ratio"), 0);
}

#[test]
fn levenshtein_empty_is_length() {
    assert_eq!(levenshtein("abc", ""), 3);
    assert_eq!(levenshtein("", "abc"), 3);
    assert_eq!(levenshtein("", ""), 0);
}

#[test]
fn levenshtein_symmetric() {
    assert_eq!(
        levenshtein("kitten", "sitting"),
        levenshtein("sitting", "kitten")
    );
    assert_eq!(levenshtein("foo", "foobaz"), levenshtein("foobaz", "foo"));
}

#[test]
fn levenshtein_known_values() {
    assert_eq!(levenshtein("kitten", "sitting"), 3);
    assert_eq!(levenshtein("foo", "foobaz"), 3);
    assert_eq!(levenshtein("flaw", "lawn"), 2);
}

#[test]
fn levenshtein_insensitive_symmetric() {
    assert_eq!(
        levenshtein_insensitive("some str'ing", "com'pleTELY-DIFf'erent"),
        levenshtein_insensitive("com'pleTELY-DIFf'erent", "some str'ing")
    );
    // Case changes and punctuation edits leave the distance unchanged.
    assert_eq!(
        levenshtein_insensitive("Foo Bar", "baz"),
        levenshtein_insensitive("foo-bar", "BAZ")
    );
}

#[test]
fn levenshtein_counts_code_points() {
    // One substitution, even though the characters differ in byte length.
    assert_eq!(levenshtein("héllo", "hello"), 1);
    assert_eq!(levenshtein("ß", ""), 1);
}

#[test]
fn levenshtein_insensitive_folds_punctuation() {
    // Dashes and underscores compare as spaces, apostrophes vanish.
    assert_eq!(levenshtein_insensitive("bob's_mod", "bobs-mod"), 0);
    // The plain distance sees them as plain substitutions instead.
    assert_eq!(levenshtein("a-b", "a b"), 1);
}
