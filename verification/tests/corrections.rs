use handy_text::corrections::collapse_self_corrections;

#[test]
fn test_collapse_marker_basic() {
    let result = collapse_self_corrections(
        "Send it to marketing, I mean send it to sales",
        &None,
    );
    assert_eq!(result, "send it to sales");
}

#[test]
fn test_collapse_marker_or_rather() {
    let result = collapse_self_corrections(
        "The meeting is Tuesday, or rather it's Wednesday",
        &None,
    );
    assert_eq!(result, "it's Wednesday");
}

#[test]
fn test_collapse_marker_scratch_that() {
    let result = collapse_self_corrections(
        "Open the file, scratch that, close the file",
        &None,
    );
    assert_eq!(result, "close the file");
}

#[test]
fn test_collapse_marker_case_insensitive() {
    let result = collapse_self_corrections(
        "Go left, I Mean go right",
        &None,
    );
    assert_eq!(result, "go right");
}

#[test]
fn test_collapse_marker_at_start_is_noop() {
    let result = collapse_self_corrections(
        "I mean this is the right way",
        &None,
    );
    assert_eq!(result, "I mean this is the right way");
}

#[test]
fn test_collapse_marker_multiple() {
    let result = collapse_self_corrections(
        "Go up, no wait go down, I mean go left",
        &None,
    );
    assert_eq!(result, "go left");
}

#[test]
fn test_collapse_marker_no_punctuation_fallback() {
    let result = collapse_self_corrections(
        "Send it to marketing I mean send it to sales",
        &None,
    );
    assert_eq!(result, "send it to sales");
}

#[test]
fn test_collapse_marker_custom_markers() {
    let custom = Some(vec!["oops".to_string()]);
    let result = collapse_self_corrections(
        "Take the left turn, oops take the right turn",
        &custom,
    );
    assert_eq!(result, "take the right turn");
}

#[test]
fn test_collapse_marker_empty_custom_disables_markers() {
    let custom = Some(vec![]);
    let result = collapse_self_corrections(
        "Go left, I mean go right",
        &custom,
    );
    // Marker detection disabled, but false-start detection still runs.
    // These clauses don't share an opener so false-start won't fire either.
    assert_eq!(result, "Go left, I mean go right");
}

#[test]
fn test_collapse_no_correction_passthrough() {
    let result = collapse_self_corrections(
        "This is a perfectly normal sentence.",
        &None,
    );
    assert_eq!(result, "This is a perfectly normal sentence.");
}

#[test]
fn test_collapse_empty_passthrough() {
    let result = collapse_self_corrections("", &None);
    assert_eq!(result, "");
}

#[test]
fn test_collapse_marker_with_em_dash() {
    let result = collapse_self_corrections(
        "Send it to marketing\u{2014}I mean send it to sales",
        &None,
    );
    assert_eq!(result, "send it to sales");
}

#[test]
fn test_false_start_basic() {
    let result = collapse_self_corrections(
        "We should probably... We need to ship by Friday",
        &None,
    );
    assert_eq!(result, "We need to ship by Friday");
}

#[test]
fn test_false_start_longer_first_clause_preserved() {
    // First clause is longer — not a false start, it's emphasis or elaboration
    let result = collapse_self_corrections(
        "We absolutely need to ship this week, we need to ship",
        &None,
    );
    assert_eq!(result, "We absolutely need to ship this week, we need to ship");
}

#[test]
fn test_false_start_different_opener_preserved() {
    let result = collapse_self_corrections(
        "The budget is tight, we need more resources",
        &None,
    );
    assert_eq!(result, "The budget is tight, we need more resources");
}

#[test]
fn test_false_start_with_the() {
    let result = collapse_self_corrections(
        "The report, the quarterly report is ready",
        &None,
    );
    assert_eq!(result, "the quarterly report is ready");
}

#[test]
fn test_mixed_marker_and_false_start() {
    // "I mean" removes "We should", then false-start collapses the repeated opener
    let result = collapse_self_corrections(
        "We should, I mean we need to, we need to ship by Friday",
        &None,
    );
    assert_eq!(result, "we need to ship by Friday");
}

#[test]
fn test_collapse_marker_multi_sentence_fallback() {
    // Fallback marker detection with no punctuation removes everything before the marker.
    // For v1 this is acceptable since transcription fragments are typically single sentences.
    let result = collapse_self_corrections(
        "The project is on track I mean we need more time",
        &None,
    );
    assert_eq!(result, "we need more time");
}
