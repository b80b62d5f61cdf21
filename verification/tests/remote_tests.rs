use ai_detector::remote::{
    extract_ai_score, remote_score_from_response, require_credential, HfError, LabelScore,
};

/// A confidence is carried in thousandths of a unit; this turns one back
/// into a fraction.
fn frac(thousandths: u32) -> f64 {
    thousandths as f64 / 1000.0
}

fn entry(label: &str, score: u32) -> LabelScore {
    LabelScore { label: label.to_string(), score }
}

#[test]
fn test_extract_ai_score() {
    let mock_response = vec![vec![entry("Real", 850), entry("Fake", 150)]];
    let result = extract_ai_score(&mock_response).unwrap();
    assert_eq!(frac(result), 0.15);
}

#[test]
fn test_extract_prefers_ai_like_label() {
    // "Fake" matches the machine-written class, so its confidence wins even
    // though the other entry scores higher.
    let mock_response = vec![vec![entry("Real", 850), entry("Fake", 150)]];
    assert_eq!(extract_ai_score(&mock_response).unwrap(), 150);
}

#[test]
fn test_extract_chatgpt_label_case_insensitive() {
    let mock_response = vec![vec![entry("Human", 100), entry("ChatGPT", 900)]];
    assert_eq!(extract_ai_score(&mock_response).unwrap(), 900);
}

#[test]
fn test_extract_falls_back_to_label_1() {
    let mock_response = vec![vec![entry("LABEL_0", 300), entry("LABEL_1", 700)]];
    assert_eq!(frac(extract_ai_score(&mock_response).unwrap()), 0.7);
}

#[test]
fn test_extract_falls_back_to_higher_of_first_two() {
    // Neither an AI-like label nor LABEL_1: the higher of the first two
    // confidences is taken. ("x"/"y" avoid the "ai" substring.)
    let mock_response = vec![vec![entry("xxx", 300), entry("yyy", 700)]];
    assert_eq!(extract_ai_score(&mock_response).unwrap(), 700);
    let mock_response = vec![vec![entry("xxx", 800), entry("yyy", 200)]];
    assert_eq!(extract_ai_score(&mock_response).unwrap(), 800);
}

#[test]
fn test_extract_tie_keeps_the_same_value() {
    let mock_response = vec![vec![entry("xxx", 500), entry("yyy", 500)]];
    assert_eq!(extract_ai_score(&mock_response).unwrap(), 500);
}

#[test]
fn test_extract_empty_response_is_parse_error() {
    let empty: Vec<Vec<LabelScore>> = vec![];
    match extract_ai_score(&empty) {
        Err(HfError::ParseError(m)) => assert_eq!(m, "Empty response from API"),
        _ => panic!("expected a parse error"),
    }
    let empty_row: Vec<Vec<LabelScore>> = vec![vec![]];
    match extract_ai_score(&empty_row) {
        Err(HfError::ParseError(m)) => assert_eq!(m, "Empty response from API"),
        _ => panic!("expected a parse error"),
    }
}

#[test]
fn test_extract_single_unmatched_entry_is_parse_error() {
    let mock_response = vec![vec![entry("xxx", 990)]];
    match extract_ai_score(&mock_response) {
        Err(HfError::ParseError(m)) => assert_eq!(m, "Could not find AI score in response"),
        _ => panic!("expected a parse error"),
    }
}

#[test]
fn test_missing_credential_is_config_error() {
    match require_credential(None) {
        Err(HfError::ConfigError(m)) => assert_eq!(m, "HF_API_TOKEN not set in environment"),
        _ => panic!("expected a configuration error"),
    }
}

#[test]
fn test_present_credential_is_passed_through() {
    match require_credential(Some("SECRET-REDACTED".to_string())) {
        Ok(token) => assert_eq!(token, "SECRET-REDACTED"),
        Err(_) => panic!("expected the token back"),
    }
}

#[test]
fn test_failed_request_becomes_api_error_with_body() {
    let r = remote_score_from_response(false, "rate limited".to_string(), Ok(vec![]));
    match r {
        Err(HfError::ApiError(m)) => assert_eq!(m, "API returned error: rate limited"),
        _ => panic!("expected an API error"),
    }
}

#[test]
fn test_undecodable_body_becomes_parse_error() {
    let r = remote_score_from_response(
        true,
        String::new(),
        Err("expected value at line 1 column 1".to_string()),
    );
    match r {
        Err(HfError::ParseError(m)) => assert_eq!(m, "expected value at line 1 column 1"),
        _ => panic!("expected a parse error"),
    }
}

#[test]
fn test_successful_response_scales_to_milli_percent() {
    let rows = vec![vec![entry("Real", 850), entry("Fake", 150)]];
    let r = remote_score_from_response(true, String::new(), Ok(rows));
    // 0.15 of a unit becomes 15% — 15_000 milli-percent.
    assert_eq!(r.unwrap(), 15_000);
}

#[test]
fn test_error_descriptions_name_the_category() {
    let e = HfError::NetworkError("connection reset".to_string());
    assert_eq!(e.describe(), "Network Error: connection reset");
    let e = HfError::ConfigError("no token".to_string());
    assert_eq!(e.describe(), "Config Error: no token");
}
