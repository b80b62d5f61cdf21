use ai_detector::analyzer::{TextAnalyzer, Verdict};

/// Scores are carried in milli-percent; this turns one back into percent.
fn pct(milli: u32) -> f64 {
    milli as f64 / 1000.0
}

#[test]
fn test_analyze_empty_text() {
    let score = TextAnalyzer::analyze("");
    assert_eq!(pct(score), 50.0);
}

#[test]
fn test_analyze_with_ai_phrases() {
    let text = "As an AI, I cannot provide personal opinions. It's important to note that...";
    let score = TextAnalyzer::analyze(text);
    assert!(pct(score) > 50.0);
}

#[test]
fn test_analyze_whitespace_only_text() {
    let score = TextAnalyzer::analyze("   ");
    assert_eq!(pct(score), 50.0);
}

#[test]
fn test_aggregate_score_is_bounded() {
    let samples = [
        "",
        "word",
        "A short sentence. Another one! And a third?",
        "As an AI, I cannot help but delve into this multifaceted issue",
        "lots, of, commas, here, in, this, one",
    ];
    for text in samples {
        let score = TextAnalyzer::analyze(text);
        assert!(pct(score) >= 0.0 && pct(score) <= 100.0);
    }
}

#[test]
fn test_verdict_boundaries() {
    assert_eq!(TextAnalyzer::verdict(60_000), Verdict::AiGenerated);
    assert_eq!(TextAnalyzer::verdict(59_999), Verdict::Uncertain);
    assert_eq!(TextAnalyzer::verdict(40_000), Verdict::HumanWritten);
    assert_eq!(TextAnalyzer::verdict(40_001), Verdict::Uncertain);
}

#[test]
fn test_verdict_labels() {
    assert_eq!(TextAnalyzer::get_verdict(75_000), "AI Generated");
    assert_eq!(TextAnalyzer::get_verdict(25_000), "Human Written");
    assert_eq!(TextAnalyzer::get_verdict(50_000), "Uncertain");
}

#[test]
fn test_phrase_detection_is_case_insensitive() {
    let upper = TextAnalyzer::detect_ai_phrases("FURTHERMORE, we note...");
    let lower = TextAnalyzer::detect_ai_phrases("furthermore, we note...");
    assert_eq!(upper, lower);
}

#[test]
fn test_three_or_more_phrases_score_85() {
    // "as an ai", "i cannot", "delve into" and "multifaceted" all occur.
    let text = "As an AI, I cannot help but delve into this multifaceted issue";
    let score = TextAnalyzer::detect_ai_phrases(text);
    assert_eq!(pct(score), 85.0);
}

#[test]
fn test_phrase_scores_per_match_count() {
    assert_eq!(pct(TextAnalyzer::detect_ai_phrases("nothing suspicious here")), 30.0);
    assert_eq!(pct(TextAnalyzer::detect_ai_phrases("we leverage nothing")), 55.0);
    assert_eq!(pct(TextAnalyzer::detect_ai_phrases("we leverage and utilize")), 70.0);
}

#[test]
fn test_phrase_counted_once_despite_repetition() {
    // One listed phrase, repeated: still a single match.
    let score = TextAnalyzer::detect_ai_phrases("furthermore furthermore furthermore");
    assert_eq!(pct(score), 55.0);
}

#[test]
fn test_diversity_needs_ten_words() {
    let score = TextAnalyzer::analyze_vocabulary_diversity("Hi there friend");
    assert_eq!(pct(score), 50.0);
}

#[test]
fn test_diversity_repetitive_text() {
    // Ten words, one distinct: ratio 0.1, at or below 0.5.
    let score = TextAnalyzer::analyze_vocabulary_diversity("a a a a a a a a a a");
    assert_eq!(pct(score), 70.0);
}

#[test]
fn test_diversity_varied_text() {
    // Ten words, all distinct: ratio 1.0, above 0.7.
    let score =
        TextAnalyzer::analyze_vocabulary_diversity("one two three four five six seven eight nine ten");
    assert_eq!(pct(score), 20.0);
}

#[test]
fn test_uniformity_needs_three_sentences() {
    let score = TextAnalyzer::analyze_sentence_uniformity("One. Two.");
    assert_eq!(pct(score), 50.0);
}

#[test]
fn test_uniformity_of_even_sentences() {
    // Three sentences of nearly equal character length: variance under 200.
    let score = TextAnalyzer::analyze_sentence_uniformity("aaaaaaaaaa. aaaaaaaaa. aaaaaaaaa.");
    assert_eq!(pct(score), 70.0);
}

#[test]
fn test_uniformity_of_wildly_uneven_sentences() {
    // Lengths 2 and 62: population variance is 900, at least 500.
    let text = "ab. cccccccccccccccccccccccccccccccccccccccccccccccccccccccccccccccccc.";
    let score = TextAnalyzer::analyze_sentence_uniformity(&format!("{} {}", text, "dd."));
    assert!(pct(score) <= 40.0);
}

#[test]
fn test_punctuation_of_empty_text() {
    assert_eq!(pct(TextAnalyzer::analyze_punctuation("")), 50.0);
}

#[test]
fn test_punctuation_sparse_exclamation_and_commas_in_band() {
    // 40 characters, no exclamation mark, one comma: 2.5% sits in (2%, 4%).
    let text = "aaaaaaaaaaaaaaaaaaa,aaaaaaaaaaaaaaaaaaaa";
    assert_eq!(text.len(), 40);
    assert_eq!(pct(TextAnalyzer::analyze_punctuation(text)), 75.0);
}

#[test]
fn test_punctuation_heavy_exclamation() {
    // Every fourth character is an exclamation mark: far above 0.5%.
    let score = TextAnalyzer::analyze_punctuation("aaa!aaa!aaa!");
    assert_eq!(pct(score), 50.0);
}

#[test]
fn test_structure_single_paragraph() {
    assert_eq!(pct(TextAnalyzer::analyze_structure("just one block of words")), 40.0);
}

#[test]
fn test_structure_two_balanced_paragraphs() {
    // Two paragraphs, 60 words each: 120 / 2 = 60, strictly between 50 and 150.
    let para = "word ".repeat(60);
    let text = format!("{}\n\n{}", para.trim(), para.trim());
    assert_eq!(pct(TextAnalyzer::analyze_structure(&text)), 60.0);
}

#[test]
fn test_structure_short_paragraphs() {
    // Two paragraphs of three words: 6 / 2 = 3, not above 50.
    let text = "one two three\n\nfour five six";
    assert_eq!(pct(TextAnalyzer::analyze_structure(text)), 40.0);
}

#[test]
fn test_end_to_end_ai_sounding_text() {
    // Six listed phrases occur, so the dominant phrase factor maxes out;
    // the single sentence (50), diverse vocabulary (20), sparse
    // exclamation (65) and single paragraph (40) weigh in as
    // 0.25*50 + 0.20*20 + 0.30*85 + 0.15*65 + 0.10*40 = 55.75.
    let text = "It's important to note that we must leverage best practices to utilize \
                cutting-edge, state-of-the-art, comprehensive understanding.";
    let phrase = TextAnalyzer::detect_ai_phrases(text);
    assert_eq!(pct(phrase), 85.0);
    let score = TextAnalyzer::analyze(text);
    assert_eq!(pct(score), 55.75);
    assert!(pct(score) > 50.0);
    assert_eq!(TextAnalyzer::get_verdict(score), "Uncertain");
}
