use handy_text::replacements::{apply_word_replacements, WordReplacement};

#[test]
fn test_apply_word_replacements_basic() {
    let text = "I'm gonna do it";
    let replacements = vec![WordReplacement {
        from: "gonna".to_string(),
        to: "going to".to_string(),
    }];
    let result = apply_word_replacements(text, &replacements);
    assert_eq!(result, "I'm going to do it");
}

#[test]
fn test_apply_word_replacements_case_insensitive() {
    let text = "I'm Gonna do it";
    let replacements = vec![WordReplacement {
        from: "gonna".to_string(),
        to: "going to".to_string(),
    }];
    let result = apply_word_replacements(text, &replacements);
    assert_eq!(result, "I'm going to do it");
}

#[test]
fn test_apply_word_replacements_multiple() {
    let text = "I wanna go but I gotta stay";
    let replacements = vec![
        WordReplacement { from: "wanna".to_string(), to: "want to".to_string() },
        WordReplacement { from: "gotta".to_string(), to: "got to".to_string() },
    ];
    let result = apply_word_replacements(text, &replacements);
    assert_eq!(result, "I want to go but I got to stay");
}

#[test]
fn test_apply_word_replacements_empty() {
    let text = "hello world";
    let replacements: Vec<WordReplacement> = vec![];
    let result = apply_word_replacements(text, &replacements);
    assert_eq!(result, "hello world");
}

#[test]
fn test_apply_word_replacements_no_partial_match() {
    let text = "the megaphone is here";
    let replacements = vec![WordReplacement {
        from: "mega".to_string(),
        to: "super".to_string(),
    }];
    let result = apply_word_replacements(text, &replacements);
    assert_eq!(result, "the megaphone is here");
}

#[test]
fn test_apply_word_replacements_multi_word_from() {
    let text = "I need to sort of figure this out";
    let replacements = vec![WordReplacement {
        from: "sort of".to_string(),
        to: "somewhat".to_string(),
    }];
    let result = apply_word_replacements(text, &replacements);
    assert_eq!(result, "I need to somewhat figure this out");
}

#[test]
fn test_apply_word_replacements_special_chars_no_panic() {
    let text = "I use c++ daily";
    let replacements = vec![WordReplacement {
        from: "c++".to_string(),
        to: "C plus plus".to_string(),
    }];
    let result = apply_word_replacements(text, &replacements);
    // \b word boundaries don't match around non-word chars like +,
    // so this won't replace — but regex::escape ensures no panic
    assert_eq!(result, "I use c++ daily");
}
