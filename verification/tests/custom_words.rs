use handy_text::custom_words::{extract_punctuation, preserve_case_pattern};

#[test]
fn test_preserve_case_pattern() {
    assert_eq!(preserve_case_pattern("HELLO", "world"), "WORLD");
    assert_eq!(preserve_case_pattern("Hello", "world"), "World");
    assert_eq!(preserve_case_pattern("hello", "WORLD"), "WORLD");
}

#[test]
fn test_extract_punctuation() {
    assert_eq!(extract_punctuation("hello"), ("", ""));
    assert_eq!(extract_punctuation("!hello?"), ("!", "?"));
    assert_eq!(extract_punctuation("...hello..."), ("...", "..."));
}

