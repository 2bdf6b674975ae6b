use handy_text::cleanup::filter_transcription_output;

#[test]
fn test_filter_filler_words() {
    let text = "So uhm I was thinking uh about this";
    let result = filter_transcription_output(text, "en", &None);
    assert_eq!(result, "So I was thinking about this");
}

#[test]
fn test_filter_filler_words_case_insensitive() {
    let text = "UHM this is UH a test";
    let result = filter_transcription_output(text, "en", &None);
    assert_eq!(result, "this is a test");
}

#[test]
fn test_filter_filler_words_with_punctuation() {
    let text = "Well, uhm, I think, uh. that's right";
    let result = filter_transcription_output(text, "en", &None);
    assert_eq!(result, "Well, I think, that's right");
}

#[test]
fn test_filter_cleans_whitespace() {
    let text = "Hello    world   test";
    let result = filter_transcription_output(text, "en", &None);
    assert_eq!(result, "Hello world test");
}

#[test]
fn test_filter_trims() {
    let text = "  Hello world  ";
    let result = filter_transcription_output(text, "en", &None);
    assert_eq!(result, "Hello world");
}

#[test]
fn test_filter_combined() {
    let text = "  Uhm, so I was, uh, thinking about this  ";
    let result = filter_transcription_output(text, "en", &None);
    assert_eq!(result, "so I was, thinking about this");
}

#[test]
fn test_filter_preserves_valid_text() {
    let text = "This is a completely normal sentence.";
    let result = filter_transcription_output(text, "en", &None);
    assert_eq!(result, "This is a completely normal sentence.");
}

#[test]
fn test_filter_stutter_collapse() {
    let text = "w wh wh wh wh wh wh wh wh wh why";
    let result = filter_transcription_output(text, "en", &None);
    assert_eq!(result, "w wh why");
}

#[test]
fn test_filter_stutter_short_words() {
    let text = "I I I I think so so so so";
    let result = filter_transcription_output(text, "en", &None);
    assert_eq!(result, "I think so");
}

#[test]
fn test_filter_stutter_mixed_case() {
    let text = "No NO no NO no";
    let result = filter_transcription_output(text, "en", &None);
    assert_eq!(result, "No");
}

#[test]
fn test_filter_stutter_preserves_two_repetitions() {
    let text = "no no is fine";
    let result = filter_transcription_output(text, "en", &None);
    assert_eq!(result, "no no is fine");
}

#[test]
fn test_filter_english_removes_um() {
    let text = "um I think um this is good";
    let result = filter_transcription_output(text, "en", &None);
    assert_eq!(result, "I think this is good");
}

#[test]
fn test_filter_portuguese_preserves_um() {
    // "um" means "a/an" in Portuguese
    let text = "um gato bonito";
    let result = filter_transcription_output(text, "pt", &None);
    assert_eq!(result, "um gato bonito");
}

#[test]
fn test_filter_spanish_preserves_ha() {
    // "ha" means "has" in Spanish
    let text = "ha sido un buen día";
    let result = filter_transcription_output(text, "es", &None);
    assert_eq!(result, "ha sido un buen día");
}

#[test]
fn test_filter_language_code_with_region() {
    // "pt-BR" should normalize to "pt"
    let text = "um gato bonito";
    let result = filter_transcription_output(text, "pt-BR", &None);
    assert_eq!(result, "um gato bonito");
}

#[test]
fn test_filter_custom_filler_words_override() {
    let custom = Some(vec!["okay".to_string(), "right".to_string()]);
    let text = "okay so I think right this works";
    let result = filter_transcription_output(text, "en", &custom);
    assert_eq!(result, "so I think this works");
}

#[test]
fn test_filter_custom_filler_words_empty_disables() {
    let custom = Some(vec![]);
    let text = "So uhm I was thinking uh about this";
    let result = filter_transcription_output(text, "en", &custom);
    // No filler words removed since custom list is empty
    assert_eq!(result, "So uhm I was thinking uh about this");
}

#[test]
fn test_filter_unknown_language_uses_fallback() {
    let text = "uh I think uhm this works";
    let result = filter_transcription_output(text, "xx", &None);
    assert_eq!(result, "I think this works");
}

#[test]
fn test_filter_fallback_does_not_remove_um() {
    // Fallback (unknown language) should not remove "um" since it's a real word in some languages
    let text = "um I think this works";
    let result = filter_transcription_output(text, "xx", &None);
    assert_eq!(result, "um I think this works");
}
