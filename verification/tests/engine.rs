//! End-to-end tests of the matching engine through `match_pattern`.

use minire::match_pattern;

fn matches(subject: &str, pattern: &str) -> bool {
    match_pattern(subject, pattern).expect("pattern should be well formed")
}

#[test]
fn single_literal_in_subject() {
    assert!(matches("apple", "a"));
}

#[test]
fn fully_anchored_word() {
    assert!(matches("log", "^log$"));
    assert!(!matches("slog", "^log$"));
}

#[test]
fn fully_anchored_literals() {
    assert!(matches("abc", "^abc$"));
    assert!(!matches("xabc", "^abc$"));
    assert!(!matches("abcx", "^abc$"));
}

#[test]
fn positive_class() {
    assert!(matches("bat", "[abc]at"));
    assert!(matches("cat", "[abc]at"));
    assert!(!matches("xat", "[abc]at"));
}

#[test]
fn negative_class() {
    assert!(matches("xat", "[^abc]at"));
    assert!(!matches("aat", "[^abc]at"));
}

#[test]
fn one_or_more() {
    assert!(matches("cat", "ca+t"));
    assert!(matches("caaat", "ca+t"));
    assert!(!matches("ct", "ca+t"));
}

#[test]
fn one_or_more_unanchored() {
    assert!(matches("caaats", "ca+t"));
}

#[test]
fn zero_or_one() {
    assert!(matches("cat", "ca?t"));
    assert!(matches("ct", "ca?t"));
}

#[test]
fn alternation_as_substring() {
    assert!(matches("I have a dog", "(cat|dog)"));
    assert!(matches("I have a cat", "(cat|dog)"));
    assert!(!matches("I have a fish", "(cat|dog)"));
}

#[test]
fn digit_class() {
    assert!(matches("abc3", "\\d"));
    assert!(matches("7", "\\d"));
    assert!(!matches("abc", "\\d"));
    assert!(!matches("", "\\d"));
}

#[test]
fn word_class() {
    assert!(matches("!!a!!", "\\w"));
    assert!(matches("!!7!!", "\\w"));
    assert!(!matches("!!!", "\\w"));
}

#[test]
fn escaped_literal_dot() {
    assert!(matches("a.b", "\\."));
    assert!(!matches("ab", "\\."));
}

#[test]
fn any_char() {
    assert!(matches("cat", "c.t"));
    assert!(matches("cut", "c.t"));
    assert!(!matches("ct", "c.t"));
}

#[test]
fn plain_pattern_is_substring_search() {
    assert!(matches("hello", "ell"));
    assert!(matches("hello", "hello"));
    assert!(!matches("hello", "elo"));
}

#[test]
fn empty_pattern_matches_everything() {
    assert!(matches("anything", ""));
    assert!(matches("", ""));
}

#[test]
fn start_end_only_matches_empty() {
    assert!(matches("", "^$"));
    assert!(!matches("a", "^$"));
    assert!(!matches("abc", "^$"));
}

#[test]
fn start_anchor_restricts_offset() {
    assert!(matches("cattle", "^cat"));
    assert!(!matches("a cat", "^cat"));
}

#[test]
fn end_anchor_requires_full_consumption() {
    assert!(matches("cat", "cat$"));
    assert!(!matches("cats", "cat$"));
}

#[test]
fn dollar_in_the_middle_is_literal() {
    assert!(matches("a$b", "a$b"));
    assert!(!matches("ab", "a$b"));
}

#[test]
fn caret_in_the_middle_is_literal() {
    assert!(matches("a^b", "a^b"));
    assert!(!matches("ab", "a^b"));
}

#[test]
fn matching_is_deterministic() {
    let first = match_pattern("I have a dog", "(cat|dog)");
    let second = match_pattern("I have a dog", "(cat|dog)");
    assert_eq!(first, second);
}

#[test]
fn empty_alternative_matches_empty_string() {
    assert!(matches("xyz", "(|a)"));
    // A group is still one token: input exhausted with tokens remaining
    // is a failure, so even an empty alternative needs input left.
    assert!(!matches("", "(|a)"));
}

#[test]
fn empty_group_holds_one_empty_alternative() {
    assert!(matches("xyz", "()"));
    assert!(!matches("", "()"));
}

#[test]
fn trailing_empty_alternative_is_dropped() {
    assert!(matches("a", "(a|)"));
    assert!(!matches("b", "(a|)"));
}

#[test]
fn leftmost_match_wins_before_end_anchor_check() {
    // The search commits to the leftmost successful evaluation; with an
    // end anchor, that match must reach the subject's end.
    assert!(!matches("aba", "a$"));
    assert!(matches("ba", "a$"));
}

#[test]
fn no_backtracking_after_committed_alternative() {
    // The first alternative that matches is committed even when a later
    // token then fails: `(a|ab)c` cannot match `abc`.
    assert!(!matches("abc", "(a|ab)c"));
    assert!(matches("ac", "(a|ab)c"));
}

#[test]
fn greedy_repetition_never_backs_off() {
    // `a+` consumes every `a` it can; a following `a` token then fails.
    assert!(!matches("aaa", "a+a"));
    assert!(matches("aab", "a+b"));
}

#[test]
fn quantified_class_and_group() {
    assert!(matches("bbb", "[ab]+"));
    assert!(matches("catdog", "(cat|dog)+"));
    assert!(!matches("fish", "[ab]+"));
}

#[test]
fn digit_class_is_unicode_aware() {
    // char::is_numeric accepts digits beyond ASCII.
    assert!(matches("٣", "\\d"));
    assert!(matches("abc٣", "\\d"));
}

#[test]
fn word_class_is_unicode_aware() {
    assert!(matches("!!é!!", "\\w"));
}

#[test]
fn multibyte_subject_and_pattern() {
    assert!(matches("héllo", "é"));
    assert!(matches("héllo", "^héllo$"));
    assert!(!matches("hello", "é"));
}
