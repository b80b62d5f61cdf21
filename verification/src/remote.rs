//! Interpretation of the remote classifier's label/confidence response.
//!
//! The remote model answers with a nested sequence of label/confidence
//! pairs whose label vocabulary varies between model revisions, so a single
//! AI-probability has to be recovered by trying matchers in a fixed order.
//! Confidences are carried in thousandths of a unit (150 stands for 0.15)
//! and are converted to milli-percent (15_000 stands for 15%) at the end.

use crate::text::{chars_of, contains_sub, contains_sub_e, lower, lower_e};
use vstd::prelude::*;

verus! {

/// The error taxonomy of the remote path: the service rejected the request,
/// the transport failed, the response could not be understood, or the
/// credential was never configured.
#[derive(Debug)]
pub enum HfError {
    ApiError(String),
    NetworkError(String),
    ParseError(String),
    ConfigError(String),
}

impl HfError {
    /// A display string for the error, with its category spelled out.
    pub fn describe(&self) -> (r: String)
        ensures
            self matches HfError::ApiError(m) ==> r@ == "API Error: "@ + m@,
            self matches HfError::NetworkError(m) ==> r@ == "Network Error: "@ + m@,
            self matches HfError::ParseError(m) ==> r@ == "Parse Error: "@ + m@,
            self matches HfError::ConfigError(m) ==> r@ == "Config Error: "@ + m@,
    {
        match self {
            HfError::ApiError(m) => {
                let mut s = String::from_str("API Error: ");
                s.append(m.as_str());
                s
            },
            HfError::NetworkError(m) => {
                let mut s = String::from_str("Network Error: ");
                s.append(m.as_str());
                s
            },
            HfError::ParseError(m) => {
                let mut s = String::from_str("Parse Error: ");
                s.append(m.as_str());
                s
            },
            HfError::ConfigError(m) => {
                let mut s = String::from_str("Config Error: ");
                s.append(m.as_str());
                s
            },
        }
    }
}

/// One class prediction of the remote model: a label and a confidence in
/// thousandths of a unit (the data model allows 0 through 1000).
pub struct LabelScore {
    pub label: String,
    pub score: u32,
}

/// Whether a label names the machine-written class: its lowercased text
/// contains "chatgpt", "ai" or "fake".
pub open spec fn label_matches_ai(l: Seq<char>) -> bool {
    contains_sub(lower(l), "chatgpt"@) || contains_sub(lower(l), "ai"@) || contains_sub(
        lower(l),
        "fake"@,
    )
}

/// The position of the first entry whose label names the machine-written
/// class, or the length if there is none.
pub open spec fn first_ai_idx(e: Seq<LabelScore>) -> int
    decreases e.len(),
{
    if e.len() == 0 {
        0
    } else if label_matches_ai(e[0].label@) {
        0
    } else {
        1 + first_ai_idx(e.drop_first())
    }
}

/// The position of the first entry labelled exactly "LABEL_1", or the length
/// if there is none.
pub open spec fn first_label1_idx(e: Seq<LabelScore>) -> int
    decreases e.len(),
{
    if e.len() == 0 {
        0
    } else if e[0].label@ == "LABEL_1"@ {
        0
    } else {
        1 + first_label1_idx(e.drop_first())
    }
}

/// What `first_ai_idx` returns: no earlier entry matches, and the entry at
/// the position matches when the position is not the length.
pub proof fn lemma_first_ai_idx(e: Seq<LabelScore>)
    ensures
        0 <= first_ai_idx(e) <= e.len(),
        forall|j: int| 0 <= j < first_ai_idx(e) ==> !label_matches_ai((#[trigger] e[j]).label@),
        first_ai_idx(e) < e.len() ==> label_matches_ai(e[first_ai_idx(e)].label@),
    decreases e.len(),
{
    if e.len() > 0 && !label_matches_ai(e[0].label@) {
        lemma_first_ai_idx(e.drop_first());
        assert forall|j: int| 0 <= j < first_ai_idx(e) implies !label_matches_ai(
            (#[trigger] e[j]).label@,
        ) by {
            if j > 0 {
                assert(e[j] == e.drop_first()[j - 1]);
            }
        }
        if first_ai_idx(e) < e.len() {
            assert(e[first_ai_idx(e)] == e.drop_first()[first_ai_idx(e) - 1]);
        }
    }
}

/// A position with the first-match property is `first_ai_idx`.
pub proof fn lemma_first_ai_idx_is(e: Seq<LabelScore>, k: int)
    requires
        0 <= k <= e.len(),
        forall|j: int| 0 <= j < k ==> !label_matches_ai((#[trigger] e[j]).label@),
        k < e.len() ==> label_matches_ai(e[k].label@),
    ensures
        first_ai_idx(e) == k,
{
    lemma_first_ai_idx(e);
    let f = first_ai_idx(e);
    if f < k {
        assert(!label_matches_ai(e[f].label@));
    } else if k < f {
        assert(!label_matches_ai(e[k].label@));
    }
}

/// What `first_label1_idx` returns.
pub proof fn lemma_first_label1_idx(e: Seq<LabelScore>)
    ensures
        0 <= first_label1_idx(e) <= e.len(),
        forall|j: int| 0 <= j < first_label1_idx(e) ==> (#[trigger] e[j]).label@ != "LABEL_1"@,
        first_label1_idx(e) < e.len() ==> e[first_label1_idx(e)].label@ == "LABEL_1"@,
    decreases e.len(),
{
    if e.len() > 0 && e[0].label@ != "LABEL_1"@ {
        lemma_first_label1_idx(e.drop_first());
        assert forall|j: int| 0 <= j < first_label1_idx(e) implies (#[trigger] e[j]).label@
            != "LABEL_1"@ by {
            if j > 0 {
                assert(e[j] == e.drop_first()[j - 1]);
            }
        }
        if first_label1_idx(e) < e.len() {
            assert(e[first_label1_idx(e)] == e.drop_first()[first_label1_idx(e) - 1]);
        }
    }
}

/// A position with the first-match property is `first_label1_idx`.
pub proof fn lemma_first_label1_idx_is(e: Seq<LabelScore>, k: int)
    requires
        0 <= k <= e.len(),
        forall|j: int| 0 <= j < k ==> (#[trigger] e[j]).label@ != "LABEL_1"@,
        k < e.len() ==> e[k].label@ == "LABEL_1"@,
    ensures
        first_label1_idx(e) == k,
{
    lemma_first_label1_idx(e);
    let f = first_label1_idx(e);
    if f < k {
        assert(e[f].label@ != "LABEL_1"@);
    } else if k < f {
        assert(e[k].label@ != "LABEL_1"@);
    }
}

/// The confidence that the ordered matcher list extracts from the entries of
/// one prediction row: the first entry whose label names the machine-written
/// class; else the entry labelled exactly "LABEL_1"; else, with at least two
/// entries, whichever of the first two has the higher confidence (ties go to
/// the first); else nothing.
pub open spec fn extract_outcome(e: Seq<LabelScore>) -> Option<u32> {
    if e.len() == 0 {
        None
    } else if first_ai_idx(e) < e.len() {
        Some(e[first_ai_idx(e)].score)
    } else if first_label1_idx(e) < e.len() {
        Some(e[first_label1_idx(e)].score)
    } else if e.len() >= 2 {
        Some(
            if e[0].score >= e[1].score {
                e[0].score
            } else {
                e[1].score
            },
        )
    } else {
        None
    }
}

/// Whether a result is a parse error carrying exactly this message.
pub open spec fn is_parse_error(r: Result<u32, HfError>, msg: Seq<char>) -> bool {
    &&& r matches Err(e)
    &&& e matches HfError::ParseError(m) && m@ == msg
}

/// Whether a label names the machine-written class.
fn label_matches_ai_e(l: &String) -> (r: bool)
    ensures
        r == label_matches_ai(l@),
{
    let lc = chars_of(l.as_str());
    let low = lower_e(&lc);
    contains_sub_e(&low, &chars_of("chatgpt")) || contains_sub_e(&low, &chars_of("ai"))
        || contains_sub_e(&low, &chars_of("fake"))
}

/// Recover the single AI confidence from the rows of label/confidence pairs
/// that the remote model answered with. Only the first row is read, since
/// one request carries one input.
pub fn extract_ai_score(results: &Vec<Vec<LabelScore>>) -> (r: Result<u32, HfError>)
    ensures
        results@.len() == 0 || results@[0]@.len() == 0 ==> is_parse_error(
            r,
            "Empty response from API"@,
        ),
        results@.len() > 0 && results@[0]@.len() > 0 ==> match extract_outcome(results@[0]@) {
            Some(s) => r == Result::<u32, HfError>::Ok(s),
            None => is_parse_error(r, "Could not find AI score in response"@),
        },
{
    if results.len() == 0 || results[0].len() == 0 {
        return Err(
            HfError::ParseError(String::from_str("Empty response from API")),
        );
    }
    let scores = &results[0];
    let ghost e = scores@;
    proof {
        assert(e == results@[0]@);
        assert(e.len() > 0);
    }
    let mut i: usize = 0;
    while i < scores.len()
        invariant
            e == scores@,
            e == results@[0]@,
            results@.len() > 0,
            e.len() > 0,
            i <= e.len(),
            forall|j: int| 0 <= j < i ==> !label_matches_ai((#[trigger] e[j]).label@),
        decreases e.len() - i,
    {
        if label_matches_ai_e(&scores[i].label) {
            proof {
                lemma_first_ai_idx_is(e, i as int);
            }
            return Ok(scores[i].score);
        }
        i += 1;
    }
    proof {
        lemma_first_ai_idx_is(e, e.len() as int);
    }
    let label1 = String::from_str("LABEL_1");
    let mut k: usize = 0;
    while k < scores.len()
        invariant
            e == scores@,
            e == results@[0]@,
            results@.len() > 0,
            e.len() > 0,
            k <= e.len(),
            label1@ == "LABEL_1"@,
            first_ai_idx(e) == e.len(),
            forall|j: int| 0 <= j < k ==> (#[trigger] e[j]).label@ != "LABEL_1"@,
        decreases e.len() - k,
    {
        if scores[k].label == label1 {
            proof {
                lemma_first_label1_idx_is(e, k as int);
            }
            return Ok(scores[k].score);
        }
        k += 1;
    }
    proof {
        lemma_first_label1_idx_is(e, e.len() as int);
    }
    if scores.len() >= 2 {
        if scores[0].score > scores[1].score {
            return Ok(scores[0].score);
        } else {
            return Ok(scores[1].score);
        }
    }
    Err(HfError::ParseError(String::from_str("Could not find AI score in response")))
}

/// Check the credential before anything is sent: a missing API token is a
/// configuration error, reported without any network attempt.
pub fn require_credential(token: Option<String>) -> (r: Result<String, HfError>)
    ensures
        token matches Some(t) ==> r == Result::<String, HfError>::Ok(t),
        token is None ==> (r matches Err(e) && (e matches HfError::ConfigError(m) && m@
            == "HF_API_TOKEN not set in environment"@)),
{
    match token {
        Some(t) => Ok(t),
        None => Err(
            HfError::ConfigError(String::from_str("HF_API_TOKEN not set in environment")),
        ),
    }
}

/// Every confidence in the rows stays in the thousandths scale of [0, 1].
pub open spec fn scores_in_unit_range(rs: Seq<Vec<LabelScore>>) -> bool {
    forall|i: int, j: int|
        0 <= i < rs.len() && 0 <= j < rs[i]@.len() ==> (#[trigger] rs[i]@[j]).score <= 1000
}

/// Turn the outcome of the remote call into a milli-percent score or an
/// error. A failed request becomes an API error carrying the response body;
/// a body that would not decode becomes a parse error carrying the decoder's
/// message; a decoded body goes through the ordered matcher list, and the
/// extracted confidence (in thousandths of a unit) is scaled to
/// milli-percent.
pub fn remote_score_from_response(
    status_success: bool,
    body: String,
    parsed: Result<Vec<Vec<LabelScore>>, String>,
) -> (r: Result<u32, HfError>)
    requires
        parsed matches Ok(rs) ==> scores_in_unit_range(rs@),
    ensures
        !status_success ==> (r matches Err(e) && (e matches HfError::ApiError(m) && m@
            == "API returned error: "@ + body@)),
        status_success ==> (parsed matches Err(pm) ==> (r matches Err(e) && (e
            matches HfError::ParseError(m) && m@ == pm@))),
        status_success ==> (parsed matches Ok(rs) ==> {
            &&& rs@.len() == 0 || rs@[0]@.len() == 0 ==> is_parse_error(
                r,
                "Empty response from API"@,
            )
            &&& rs@.len() > 0 && rs@[0]@.len() > 0 ==> match extract_outcome(rs@[0]@) {
                Some(s) => r matches Ok(v) && v == 100 * s,
                None => is_parse_error(r, "Could not find AI score in response"@),
            }
        }),
{
    if !status_success {
        let mut m = String::from_str("API returned error: ");
        m.append(body.as_str());
        return Err(HfError::ApiError(m));
    }
    match parsed {
        Err(pm) => Err(HfError::ParseError(pm)),
        Ok(rs) => {
            match extract_ai_score(&rs) {
                Ok(s) => {
                    proof {
                        if rs@.len() > 0 && rs@[0]@.len() > 0 {
                            let e = rs@[0]@;
                            lemma_first_ai_idx(e);
                            lemma_first_label1_idx(e);
                            assert(s <= 1000);
                        }
                    }
                    Ok(100 * s)
                },
                Err(err) => Err(err),
            }
        },
    }
}

} // verus!
