use handy_text::cleanup::{
    collapse_stutters, filter_transcription_output, get_filler_words_for_language,
};
use handy_text::corrections::{
    collapse_self_corrections, get_default_correction_markers, split_into_clauses,
};
use handy_text::custom_words::{
    apply_custom_word_matches, build_ngram, comparison_forms, extract_punctuation,
    match_candidates, ngram_keys, preserve_case_pattern, MatchCandidate, NgramMatch,
};
use handy_text::replacements::{apply_word_replacements, WordReplacement};
use handy_text::unicode::to_chars;

fn strings(items: &[&str]) -> Vec<String> {
    items.iter().map(|s| s.to_string()).collect()
}

fn no_match_table(text: &str) -> Vec<Vec<NgramMatch>> {
    ngram_keys(text)
        .iter()
        .map(|row| row.iter().map(|_| NgramMatch::NoMatch).collect())
        .collect()
}

// --- self-corrections ---

#[test]
fn empty_text_stays_empty_with_custom_markers() {
    let custom = Some(strings(&["oops"]));
    assert_eq!(collapse_self_corrections("", &custom), "");
}

#[test]
fn no_marker_list_is_the_default_list() {
    let defaults: Vec<String> = get_default_correction_markers()
        .iter()
        .map(|s| s.to_string())
        .collect();
    let texts = [
        "Go up, no wait go down, I mean go left",
        "The project is on track I mean we need more time",
        "The report, the quarterly report is ready",
    ];
    for text in texts {
        assert_eq!(
            collapse_self_corrections(text, &None),
            collapse_self_corrections(text, &Some(defaults.clone()))
        );
    }
}

#[test]
fn empty_marker_list_still_collapses_false_starts() {
    let result = collapse_self_corrections(
        "We should probably... We need to ship by Friday",
        &Some(vec![]),
    );
    assert_eq!(result, "We need to ship by Friday");
}

#[test]
fn clauses_are_trimmed_and_non_empty() {
    let text = to_chars("  a ,  b ;c -- d ... e \u{2026} f\u{2014}g , , ");
    let clauses: Vec<String> = split_into_clauses(&text)
        .iter()
        .map(|c| c.iter().collect())
        .collect();
    assert_eq!(clauses, vec!["a", "b", "c", "d", "e", "f", "g"]);
}

#[test]
fn fallback_tries_longer_markers_first() {
    let custom = Some(strings(&["no", "no wait"]));
    let result = collapse_self_corrections("take the left no wait the right", &custom);
    assert_eq!(result, "the right");
}

#[test]
fn fallback_orders_markers_by_byte_length() {
    // "\u{f1}a\u{f1}a" is four characters but six bytes, so it is tried before
    // the five-byte "abcde"
    let custom = Some(strings(&["abcde", "\u{f1}a\u{f1}a"]));
    let result = collapse_self_corrections("x abcde y \u{f1}a\u{f1}a z", &custom);
    assert_eq!(result, "z");
}

#[test]
fn empty_marker_is_found_at_the_start() {
    let custom = Some(strings(&[""]));
    // without clause boundaries the empty marker is found at the very start
    // and skipped
    assert_eq!(collapse_self_corrections("Hello! World", &custom), "Hello! World");
    // clause by clause, every clause starts with it and replaces the one before
    assert_eq!(collapse_self_corrections("Hello! World, again", &custom), "again");
    assert_eq!(collapse_self_corrections("one, two, three", &custom), "three");
}

#[test]
fn clauses_split_at_the_named_punctuation_only() {
    let text = to_chars("a - b -- c . d .. e,,f ; g\u{2014}h \u{2026} i");
    let clauses: Vec<String> = split_into_clauses(&text)
        .iter()
        .map(|c| c.iter().collect())
        .collect();
    assert_eq!(clauses, vec!["a - b", "c . d", "e", "f", "g", "h", "i"]);
}

#[test]
fn fallback_keeps_list_order_between_equal_lengths() {
    let custom = Some(strings(&["ab", "cd"]));
    let result = collapse_self_corrections("x cd y ab z", &custom);
    assert_eq!(result, "z");
}

#[test]
fn marker_is_cut_from_the_original_clause() {
    // The Kelvin sign lowercases to a one-byte "k"; the marker is still cut
    // after the sign itself.
    let custom = Some(strings(&["k"]));
    assert_eq!(collapse_self_corrections("Go left, \u{212A} ab", &custom), "ab");
    // Lowercasing "\u{130}" lengthens the text; the fallback still cuts after
    // the marker in the original text.
    let custom = Some(strings(&["mean"]));
    assert_eq!(
        collapse_self_corrections("\u{130}\u{130} mean \u{fc}", &custom),
        "\u{fc}"
    );
}

#[test]
fn markers_match_whole_words_only() {
    assert_eq!(collapse_self_corrections("Ali means well", &None), "Ali means well");
    assert_eq!(
        collapse_self_corrections("Go left, I meant right", &None),
        "Go left, I meant right"
    );
    assert_eq!(collapse_self_corrections("Go left, I mean, right", &None), "right");
}

#[test]
fn default_markers_collapse_a_clause() {
    let text = "Send it to marketing, I mean send it to sales";
    assert_eq!(collapse_self_corrections(text, &None), "send it to sales");
}

// --- filler words, stutters, whitespace ---

#[test]
fn filtered_output_has_no_outer_whitespace() {
    assert_eq!(filter_transcription_output("  uh  ", "en", &None), "");
    assert_eq!(filter_transcription_output("\tHello\n", "en", &None), "Hello");
}

#[test]
fn filtered_output_is_single_spaced() {
    assert_eq!(filter_transcription_output("a \t b\n\nc", "en", &None), "a b c");
    assert_eq!(filter_transcription_output("a\u{3000}\u{3000}b", "en", &None), "a b");
}

#[test]
fn region_of_language_code_is_ignored() {
    assert_eq!(get_filler_words_for_language("pt-BR"), get_filler_words_for_language("pt"));
    assert_eq!(get_filler_words_for_language("pt_PT"), get_filler_words_for_language("pt"));
    assert_eq!(get_filler_words_for_language("pt"), vec!["ahm", "hmm", "mmm", "hm"]);
}

#[test]
fn unknown_language_uses_fallback_list() {
    assert_eq!(
        get_filler_words_for_language("xx"),
        vec!["uh", "uhm", "umm", "uhh", "uhhh", "ah", "hmm", "hm", "mmm", "mm", "mh", "ehh"]
    );
    assert_eq!(get_filler_words_for_language(""), get_filler_words_for_language("xx"));
    assert_eq!(get_filler_words_for_language("de"), vec!["äh", "ähm", "hmm", "hm", "mmm"]);
}

#[test]
fn filler_with_punctuation_after_is_removed() {
    let custom = Some(strings(&["c++"]));
    // escaped meta characters match literally; the trailing \b cannot match
    // after '+', so nothing is removed
    assert_eq!(
        filter_transcription_output("I use c++ daily", "en", &custom),
        "I use c++ daily"
    );
    let custom = Some(strings(&["okay"]));
    assert_eq!(filter_transcription_output("okay, go", "en", &custom), "go");
}

#[test]
fn stutter_runs_collapse_case_insensitively() {
    assert_eq!(collapse_stutters("ab AB ab ab x"), "ab x");
    assert_eq!(collapse_stutters("wh wh x wh wh"), "wh wh x wh wh");
    assert_eq!(collapse_stutters("abc abc abc"), "abc abc abc");
    assert_eq!(collapse_stutters("  no   no  "), "no no");
}

#[test]
fn two_letter_words_count_characters() {
    assert_eq!(collapse_stutters("\u{434}\u{430} \u{434}\u{430} \u{434}\u{430} \u{434}\u{430}"), "\u{434}\u{430}");
    assert_eq!(
        filter_transcription_output("\u{434}\u{430} \u{434}\u{430} \u{434}\u{430} \u{434}\u{430}", "ru", &None),
        "\u{434}\u{430}"
    );
}

#[test]
fn collapsing_stutters_twice_changes_nothing_more() {
    for text in ["I I I I think so so so so", "a a a b b b a a a", "No NO no NO no"] {
        let once = collapse_stutters(text);
        assert_eq!(collapse_stutters(&once), once);
    }
}

#[test]
fn text_without_words_is_kept() {
    assert_eq!(collapse_stutters("   "), "   ");
}

// --- replacements ---

#[test]
fn no_replacements_keep_text_untouched() {
    assert_eq!(apply_word_replacements("  a  b ", &[]), "  a  b ");
}

#[test]
fn replacement_text_is_inserted_literally() {
    let reps = vec![WordReplacement {
        from: "five".to_string(),
        to: "$5".to_string(),
    }];
    assert_eq!(apply_word_replacements("it costs five", &reps), "it costs $5");
    let reps = vec![WordReplacement {
        from: "x".to_string(),
        to: "${0}$0".to_string(),
    }];
    assert_eq!(apply_word_replacements("a x b", &reps), "a ${0}$0 b");
}

#[test]
fn replacements_collapse_only_runs_of_whitespace() {
    let reps = vec![WordReplacement {
        from: "x".to_string(),
        to: "y".to_string(),
    }];
    assert_eq!(apply_word_replacements("a\tb  \t x", &reps), "a\tb y");
}

#[test]
fn replaced_text_is_trimmed_and_spaced() {
    let reps = vec![WordReplacement {
        from: "gonna".to_string(),
        to: "going to".to_string(),
    }];
    assert_eq!(apply_word_replacements("  gonna   go ", &reps), "going to go");
}

// --- custom words ---

#[test]
fn lowercase_original_keeps_replacement_case() {
    assert_eq!(preserve_case_pattern("hello", "wOrLd"), "wOrLd");
    assert_eq!(preserve_case_pattern("123", "abc"), "abc");
    // an empty original counts as all uppercase
    assert_eq!(preserve_case_pattern("", "abc"), "ABC");
    // the first character is uppercased by its full mapping's first character
    assert_eq!(preserve_case_pattern("Hello", "\u{df}x"), "Sx");
}

#[test]
fn punctuation_is_cut_at_characters() {
    assert_eq!(extract_punctuation("\u{bf}hola?"), ("\u{bf}", "?"));
    assert_eq!(extract_punctuation("\u{a1}\u{a1}hola"), ("\u{a1}\u{a1}", ""));
    assert_eq!(extract_punctuation("..."), ("...", "..."));
    assert_eq!(extract_punctuation("(hi)"), ("(", ")"));
    assert_eq!(extract_punctuation(""), ("", ""));
}

#[test]
fn ngram_keys_strip_and_lowercase() {
    assert_eq!(build_ngram(&["Charge", "B,"]), "chargeb");
    assert_eq!(
        ngram_keys("Charge B, che"),
        vec![
            strings(&["charge", "chargeb", "chargebche"]),
            strings(&["b", "bche"]),
            strings(&["che"]),
        ]
    );
}

#[test]
fn comparison_forms_drop_spaces_and_case() {
    assert_eq!(
        comparison_forms(&strings(&["MacBook Pro", "GPT-4"])),
        strings(&["macbookpro", "gpt-4"])
    );
}

#[test]
fn match_candidates_measure_each_form() {
    let forms = strings(&["chargebee", "x", "chargeb"]);
    assert_eq!(
        match_candidates("chargeb", &forms),
        Some(vec![
            MatchCandidate { index: 0, distance: 2, max_len: 9, phonetic: true },
            MatchCandidate { index: 2, distance: 0, max_len: 7, phonetic: true },
        ])
    );
    let forms = strings(&["kat"]);
    assert_eq!(
        match_candidates("cat", &forms),
        Some(vec![MatchCandidate { index: 0, distance: 1, max_len: 3, phonetic: false }])
    );
}

#[test]
fn match_candidates_edge_cases() {
    let forms = strings(&["hello"]);
    assert_eq!(match_candidates("", &forms), Some(vec![]));
    let long = "a".repeat(51);
    assert_eq!(match_candidates(&long, &forms), Some(vec![]));
    // an empty form within the length tolerance cannot be compared by Soundex
    let forms = strings(&["ab", ""]);
    assert_eq!(match_candidates("ab", &forms), None);
}

#[test]
fn no_matches_rejoin_words_with_single_spaces() {
    let text = "  hello   world ";
    let custom = strings(&["zebra"]);
    assert_eq!(
        apply_custom_word_matches(text, &custom, &no_match_table(text)),
        Some("hello world".to_string())
    );
}

#[test]
fn no_custom_words_keep_the_text() {
    let text = "  hello   world ";
    assert_eq!(
        apply_custom_word_matches(text, &[], &no_match_table(text)),
        Some(text.to_string())
    );
}

#[test]
fn matched_run_keeps_outer_punctuation_and_case() {
    let text = "CHARGE B, che";
    let mut table = no_match_table(text);
    table[0][1] = NgramMatch::Best(0);
    let custom = strings(&["ChargeBee"]);
    assert_eq!(
        apply_custom_word_matches(text, &custom, &table),
        Some("CHARGEBEE, che".to_string())
    );
}

#[test]
fn unusable_matches_are_refused() {
    let text = "one two";
    let custom = strings(&["One"]);
    let mut table = no_match_table(text);
    table[1][0] = NgramMatch::Unscorable;
    assert_eq!(apply_custom_word_matches(text, &custom, &table), None);
    let mut table = no_match_table(text);
    table[0][0] = NgramMatch::Best(5);
    assert_eq!(apply_custom_word_matches(text, &custom, &table), None);
}

#[test]
fn matched_word_keeps_multibyte_punctuation() {
    let text = "\u{a1}uno dos";
    let custom = strings(&["One"]);
    let mut table = no_match_table(text);
    table[0][0] = NgramMatch::Best(0);
    assert_eq!(
        apply_custom_word_matches(text, &custom, &table),
        Some("\u{a1}One dos".to_string())
    );
}

#[test]
fn longer_run_wins_over_shorter() {
    let text = "Open AI GPT";
    let custom = strings(&["OpenAI", "GPT"]);
    let mut table = no_match_table(text);
    table[0][0] = NgramMatch::Best(0);
    table[0][1] = NgramMatch::Best(0);
    table[2][0] = NgramMatch::Best(1);
    assert_eq!(
        apply_custom_word_matches(text, &custom, &table),
        Some("OpenAI GPT".to_string())
    );
}
