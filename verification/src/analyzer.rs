//! The heuristic analyzers and the aggregator.
//!
//! Every score is an integer in milli-percent, so 50_000 stands for 50%.
//! The five analyzers each return a sub-score in [0, 100_000]; the aggregator
//! combines them with fixed weights in hundredths (25 + 20 + 30 + 15 + 10 =
//! 100) into one milli-percent probability that the text was machine-written.

use crate::text::{
    chars_of, contains_sub, contains_sub_e, copy_chars, count_char, count_char_e, filter_non_empty,
    is_blank,
    is_blank_e, lemma_lower_idempotent, lemma_sentences_bounds, lower,
    lower_e, normalize_word, paragraphs, paragraphs_of, sentences, sentences_of, sum_of, sum_sq,
    trim_non_word_e, views_of, words, words_of,
};
use vstd::prelude::*;
use vstd::seq_lib::*;

verus! {

/// The longest text, in characters, that the analyzers accept; the bound
/// keeps the variance arithmetic of the uniformity analyzer inside `u128`.
pub const MAX_TEXT_LEN: usize = 0x3FFF_FFFF;

/// The per-sentence character lengths of a text.
pub open spec fn sentence_lengths(t: Seq<char>) -> Seq<int> {
    sentences(t).map_values(|f: Seq<char>| f.len() as int)
}

/// The sentence-length uniformity sub-score. With fewer than three sentences
/// the analyzer abstains with the neutral 50%. Otherwise it classifies the
/// population variance of the sentence lengths: below 200 is uniform and
/// machine-like (70%), below 500 is middling (40%), anything above shows
/// natural variation (20%). The variance comparisons are stated exactly over
/// the integers: with `n` sentences of total length `s` and squared total
/// `q`, the variance is `(n*q - s*s) / n^2`, so `variance < b` is
/// `n*q < b*n*n + s*s`.
pub open spec fn uniformity_score_spec(t: Seq<char>) -> int {
    let ss = sentences(t);
    if ss.len() < 3 {
        50000
    } else {
        let n = ss.len() as int;
        let s = sum_of(sentence_lengths(t));
        let q = sum_sq(sentence_lengths(t));
        if n * q < 200 * n * n + s * s {
            70000
        } else if n * q < 500 * n * n + s * s {
            40000
        } else {
            20000
        }
    }
}

/// The normalization that the diversity analyzer applies to every word.
pub open spec fn normalize_pred() -> spec_fn(Seq<char>) -> Seq<char> {
    |w: Seq<char>| normalize_word(w)
}

/// The normalized words of a text: each word lowercased and stripped of
/// non-alphanumeric edges, with words that vanish entirely dropped.
pub open spec fn normalized_words(t: Seq<char>) -> Seq<Seq<char>> {
    words(t).map_values(normalize_pred()).filter(crate::text::non_empty_pred())
}

/// How many distinct normalized words a text holds.
pub open spec fn distinct_word_count(t: Seq<char>) -> int {
    normalized_words(t).to_set().len() as int
}

/// The vocabulary diversity sub-score. With fewer than ten words the
/// analyzer abstains with the neutral 50%. Otherwise it classifies the ratio
/// of distinct normalized words to total words: above 0.7 is diverse and
/// human-like (20%), above 0.5 is middling (40%), anything at or below is
/// repetitive and machine-like (70%).
pub open spec fn diversity_score_spec(t: Seq<char>) -> int {
    let n = words(t).len() as int;
    if n < 10 {
        50000
    } else {
        let d = distinct_word_count(t);
        if 10 * d > 7 * n {
            20000
        } else if 2 * d > n {
            40000
        } else {
            70000
        }
    }
}

/// How many phrases the detector knows.
pub const NUM_AI_PHRASES: usize = 19;

/// The fixed list of phrases strongly associated with machine-written prose.
pub open spec fn ai_phrase(i: int) -> Seq<char> {
    if i == 0 {
        "as an ai"@
    } else if i == 1 {
        "i don't have personal"@
    } else if i == 2 {
        "i cannot"@
    } else if i == 3 {
        "i'm sorry, but"@
    } else if i == 4 {
        "it's important to note"@
    } else if i == 5 {
        "it is worth noting"@
    } else if i == 6 {
        "furthermore"@
    } else if i == 7 {
        "in conclusion"@
    } else if i == 8 {
        "to summarize"@
    } else if i == 9 {
        "delve into"@
    } else if i == 10 {
        "multifaceted"@
    } else if i == 11 {
        "paradigm shift"@
    } else if i == 12 {
        "cutting-edge"@
    } else if i == 13 {
        "state-of-the-art"@
    } else if i == 14 {
        "best practices"@
    } else if i == 15 {
        "leverage"@
    } else if i == 16 {
        "utilize"@
    } else if i == 17 {
        "facilitate"@
    } else {
        "comprehensive understanding"@
    }
}

/// Whether the lowercased text contains the `i`-th listed phrase.
pub open spec fn phrase_matched(t: Seq<char>, i: int) -> bool {
    contains_sub(lower(t), ai_phrase(i))
}

/// How many of the first `k` listed phrases the text contains.
pub open spec fn match_count_up_to(t: Seq<char>, k: int) -> int
    decreases k,
{
    if k <= 0 {
        0
    } else {
        match_count_up_to(t, k - 1) + if phrase_matched(t, k - 1) {
            1int
        } else {
            0int
        }
    }
}

/// How many of the listed phrases the text contains, each counted once.
pub open spec fn phrase_match_count(t: Seq<char>) -> int {
    match_count_up_to(t, NUM_AI_PHRASES as int)
}

/// The phrase-detection sub-score: three or more distinct listed phrases give
/// 85%, two give 70%, one gives 55%, none gives 30%.
pub open spec fn phrase_score_spec(t: Seq<char>) -> int {
    let m = phrase_match_count(t);
    if m >= 3 {
        85000
    } else if m == 2 {
        70000
    } else if m == 1 {
        55000
    } else {
        30000
    }
}

/// The punctuation sub-score. Empty text is neutral at 50%. Otherwise the
/// base 50% gains 15 points when exclamation marks make up less than 0.5% of
/// the characters, and 10 points when commas make up strictly between 2% and
/// 4% of them; both comparisons are stated exactly over the integers.
pub open spec fn punctuation_score_spec(t: Seq<char>) -> int {
    if t.len() == 0 {
        50000
    } else {
        let total = t.len() as int;
        let excl = count_char(t, '!');
        let comma = count_char(t, ',');
        50000 + (if 200 * excl < total {
            15000int
        } else {
            0int
        }) + (if 50 * comma > total && 25 * comma < total {
            10000int
        } else {
            0int
        })
    }
}

/// The structural sub-score: more than one paragraph with an integer-divided
/// words-per-paragraph strictly between 50 and 150 reads as deliberately
/// structured (60%); anything else is 40%.
pub open spec fn structure_score_spec(t: Seq<char>) -> int {
    let wc = words(t).len() as int;
    let pc = paragraphs(t).len() as int;
    if pc > 1 && wc / pc > 50 && wc / pc < 150 {
        60000
    } else {
        40000
    }
}

/// The aggregate milli-percent score: neutral 50% for blank text, otherwise
/// the weighted sum of the five sub-scores with weights 0.25, 0.20, 0.30,
/// 0.15 and 0.10, normalized by the weight total.
pub open spec fn aggregate_score_spec(t: Seq<char>) -> int {
    if is_blank(t) {
        50000
    } else {
        (uniformity_score_spec(t) * 25 + diversity_score_spec(t) * 20 + phrase_score_spec(t) * 30
            + punctuation_score_spec(t) * 15 + structure_score_spec(t) * 10) / 100
    }
}

/// Every aggregate score lies between 0% and 100%.
pub proof fn lemma_aggregate_score_in_range(t: Seq<char>)
    ensures
        0 <= aggregate_score_spec(t) <= 100000,
{
}

/// Blank text — empty or all whitespace — scores exactly the neutral 50%.
pub proof fn lemma_blank_text_is_neutral(t: Seq<char>)
    ensures
        is_blank(t) ==> aggregate_score_spec(t) == 50000,
{
}

/// A text that contains three or more of the listed phrases has a phrase
/// sub-score of exactly 85%.
pub proof fn lemma_three_phrases_score(t: Seq<char>)
    ensures
        phrase_match_count(t) >= 3 ==> phrase_score_spec(t) == 85000,
{
}

/// With fewer than ten words the diversity sub-score is exactly the neutral
/// 50%, whatever the words are.
pub proof fn lemma_few_words_neutral_diversity(t: Seq<char>)
    ensures
        words(t).len() < 10 ==> diversity_score_spec(t) == 50000,
{
}

/// Counting matched phrases in the lowercased text counts the same phrases.
proof fn lemma_match_count_lower(t: Seq<char>, k: int)
    ensures
        match_count_up_to(lower(t), k) == match_count_up_to(t, k),
    decreases k,
{
    if k > 0 {
        lemma_match_count_lower(t, k - 1);
        lemma_lower_idempotent(t);
    }
}

/// Phrase detection is case-insensitive: lowercasing the text first changes
/// nothing about its phrase sub-score.
pub proof fn lemma_phrase_detection_case_insensitive(t: Seq<char>)
    ensures
        phrase_score_spec(lower(t)) == phrase_score_spec(t),
{
    lemma_match_count_lower(t, NUM_AI_PHRASES as int);
}

/// The three categorical outcomes of an analysis.
#[derive(Clone, Copy, Debug, PartialEq, Eq, Structural)]
pub enum Verdict {
    AiGenerated,
    HumanWritten,
    Uncertain,
}

/// The verdict that a milli-percent score maps to: at least 60% means
/// AI-generated, at most 40% means human-written, anything between is
/// uncertain.
pub open spec fn verdict_of(p: int) -> Verdict {
    if p >= 60000 {
        Verdict::AiGenerated
    } else if p <= 40000 {
        Verdict::HumanWritten
    } else {
        Verdict::Uncertain
    }
}

/// Whether two character vectors hold the same characters.
fn chars_eq(a: &Vec<char>, b: &Vec<char>) -> (r: bool)
    ensures
        r == (a@ == b@),
{
    if a.len() != b.len() {
        return false;
    }
    let mut i: usize = 0;
    while i < a.len()
        invariant
            a@.len() == b@.len(),
            i <= a@.len(),
            forall|j: int| 0 <= j < i ==> a@[j] == b@[j],
        decreases a@.len() - i,
    {
        if a[i] != b[i] {
            return false;
        }
        i += 1;
    }
    proof {
        assert(a@ =~= b@);
    }
    true
}

/// Whether a character vector with this view occurs in the list.
fn contains_vec(list: &Vec<Vec<char>>, w: &Vec<char>) -> (r: bool)
    ensures
        r == views_of(list@).contains(w@),
{
    let mut k: usize = 0;
    while k < list.len()
        invariant
            k <= list@.len(),
            forall|j: int| 0 <= j < k ==> (#[trigger] list@[j])@ != w@,
        decreases list@.len() - k,
    {
        if chars_eq(&list[k], w) {
            proof {
                assert(views_of(list@)[k as int] == w@);
            }
            return true;
        }
        k += 1;
    }
    proof {
        assert forall|i: int| 0 <= i < views_of(list@).len() implies views_of(list@)[i] != w@ by {
            assert(views_of(list@)[i] == list@[i]@);
        }
    }
    false
}

/// Pushing an element onto a sequence inserts it into the element set.
proof fn lemma_to_set_push(s: Seq<Seq<char>>, x: Seq<char>)
    ensures
        s.push(x).to_set() == s.to_set().insert(x),
{
    assert forall|a: Seq<char>| s.push(x).to_set().contains(a) implies s.to_set().insert(x).contains(
        a,
    ) by {
        let i = choose|i: int| 0 <= i < s.push(x).len() && s.push(x)[i] == a;
        if i < s.len() {
            assert(s[i] == a);
        }
    }
    assert forall|a: Seq<char>| s.to_set().insert(x).contains(a) implies s.push(x).to_set().contains(
        a,
    ) by {
        if a == x {
            assert(s.push(x)[s.len() as int] == a);
        } else {
            let i = choose|i: int| 0 <= i < s.len() && s[i] == a;
            assert(s.push(x)[i] == a);
        }
    }
    assert(s.push(x).to_set() =~= s.to_set().insert(x));
}

/// The phrase list as character vectors, in the listed order.
fn ai_phrases_list() -> (r: Vec<Vec<char>>)
    ensures
        r@.len() == NUM_AI_PHRASES,
        forall|i: int| 0 <= i < r@.len() ==> (#[trigger] r@[i])@ == ai_phrase(i),
{
    let mut r: Vec<Vec<char>> = Vec::new();
    r.push(chars_of("as an ai"));
    r.push(chars_of("i don't have personal"));
    r.push(chars_of("i cannot"));
    r.push(chars_of("i'm sorry, but"));
    r.push(chars_of("it's important to note"));
    r.push(chars_of("it is worth noting"));
    r.push(chars_of("furthermore"));
    r.push(chars_of("in conclusion"));
    r.push(chars_of("to summarize"));
    r.push(chars_of("delve into"));
    r.push(chars_of("multifaceted"));
    r.push(chars_of("paradigm shift"));
    r.push(chars_of("cutting-edge"));
    r.push(chars_of("state-of-the-art"));
    r.push(chars_of("best practices"));
    r.push(chars_of("leverage"));
    r.push(chars_of("utilize"));
    r.push(chars_of("facilitate"));
    r.push(chars_of("comprehensive understanding"));
    r
}

pub struct TextAnalyzer;

impl TextAnalyzer {
    /// The phrase-detection sub-score of a text, in milli-percent.
    pub fn detect_ai_phrases(text: &str) -> (r: u32)
        ensures
            r as int == phrase_score_spec(text@),
            30000 <= r <= 85000,
    {
        let t = chars_of(text);
        let low = lower_e(&t);
        let phrases = ai_phrases_list();
        let mut count: usize = 0;
        let mut i: usize = 0;
        while i < phrases.len()
            invariant
                low@ == lower(text@),
                phrases@.len() == NUM_AI_PHRASES,
                forall|k: int| 0 <= k < phrases@.len() ==> (#[trigger] phrases@[k])@ == ai_phrase(k),
                i <= phrases@.len(),
                count as int == match_count_up_to(text@, i as int),
                count <= i,
            decreases phrases@.len() - i,
        {
            if contains_sub_e(&low, &phrases[i]) {
                count += 1;
            }
            i += 1;
        }
        if count >= 3 {
            85000
        } else if count == 2 {
            70000
        } else if count == 1 {
            55000
        } else {
            30000
        }
    }

    /// The sentence-length uniformity sub-score of a text, in milli-percent.
    pub fn analyze_sentence_uniformity(text: &str) -> (r: u32)
        requires
            text@.len() <= MAX_TEXT_LEN,
        ensures
            r as int == uniformity_score_spec(text@),
            20000 <= r <= 70000,
    {
        let t = chars_of(text);
        let frags = sentences_of(&t);
        proof {
            assert(views_of(frags@).len() == frags@.len());
            lemma_sentences_bounds(text@);
        }
        if frags.len() < 3 {
            return 50000;
        }
        let ghost lens = sentence_lengths(text@);
        let n_us = frags.len();
        let mut ssum: u128 = 0;
        let mut qsum: u128 = 0;
        let mut i: usize = 0;
        proof {
            assert(lens.subrange(0, 0) =~= Seq::<int>::empty());
        }
        while i < n_us
            invariant
                views_of(frags@) == sentences(text@),
                lens == sentence_lengths(text@),
                text@.len() <= MAX_TEXT_LEN,
                n_us == frags@.len(),
                3 <= n_us <= MAX_TEXT_LEN as int + 1,
                forall|k: int|
                    0 <= k < n_us ==> (#[trigger] sentences(text@)[k]).len() <= text@.len(),
                i <= n_us,
                ssum as int == sum_of(lens.subrange(0, i as int)),
                qsum as int == sum_sq(lens.subrange(0, i as int)),
                ssum as int <= i as int * (MAX_TEXT_LEN as int),
                qsum as int <= i as int * (MAX_TEXT_LEN as int) * (MAX_TEXT_LEN as int),
            decreases n_us - i,
        {
            let l = frags[i].len();
            proof {
                assert(views_of(frags@)[i as int] == frags@[i as int]@);
                assert(sentences(text@)[i as int].len() <= text@.len());
                assert(lens[i as int] == sentences(text@)[i as int].len());
                let p = lens.subrange(0, i as int + 1);
                assert(p.drop_last() =~= lens.subrange(0, i as int));
                assert(p.last() == lens[i as int]);
                assert((l as int) * (l as int) <= (MAX_TEXT_LEN as int) * (MAX_TEXT_LEN as int))
                    by (nonlinear_arith)
                    requires
                        0 <= l as int <= MAX_TEXT_LEN as int,
                ;
            }
            ssum = ssum + l as u128;
            qsum = qsum + (l as u128) * (l as u128);
            i += 1;
        }
        proof {
            assert(lens.subrange(0, n_us as int) =~= lens);
        }
        let nn = n_us as u128;
        proof {
            assert(nn as int * (qsum as int) <= 0x40000000000000000000000000000000int)
                by (nonlinear_arith)
                requires
                    0 <= nn as int <= 0x40000000,
                    0 <= qsum as int <= 0x40000000 * 0x3FFFFFFFint * 0x3FFFFFFFint,
            ;
            assert((ssum as int) * (ssum as int) <= 0x40000000000000000000000000000000int)
                by (nonlinear_arith)
                requires
                    0 <= ssum as int <= 0x40000000 * 0x3FFFFFFFint,
            ;
            assert(nn as int * (nn as int) <= 0x1000000000000000int) by (nonlinear_arith)
                requires
                    0 <= nn as int <= 0x40000000,
            ;
        }
        let lhs: u128 = nn * qsum;
        let s2: u128 = ssum * ssum;
        let n2: u128 = nn * nn;
        proof {
            let ss = sentences(text@);
            assert(ss.len() == n_us as int);
            assert(lhs as int == (n_us as int) * (qsum as int));
            assert(s2 as int == (ssum as int) * (ssum as int));
            assert(n2 as int == (n_us as int) * (n_us as int));
            assert(ssum as int == sum_of(sentence_lengths(text@)));
            assert(qsum as int == sum_sq(sentence_lengths(text@)));
            assert(200 * (n2 as int) == 200 * (n_us as int) * (n_us as int)) by (nonlinear_arith)
                requires
                    n2 as int == (n_us as int) * (n_us as int),
            ;
            assert(500 * (n2 as int) == 500 * (n_us as int) * (n_us as int)) by (nonlinear_arith)
                requires
                    n2 as int == (n_us as int) * (n_us as int),
            ;
        }
        if lhs < 200 * n2 + s2 {
            70000
        } else if lhs < 500 * n2 + s2 {
            40000
        } else {
            20000
        }
    }

    /// The vocabulary diversity sub-score of a text, in milli-percent.
    pub fn analyze_vocabulary_diversity(text: &str) -> (r: u32)
        ensures
            r as int == diversity_score_spec(text@),
            20000 <= r <= 70000,
    {
        let t = chars_of(text);
        let ws = words_of(&t);
        proof {
            assert(views_of(ws@).len() == ws@.len());
        }
        if ws.len() < 10 {
            return 50000;
        }
        let mut norm: Vec<Vec<char>> = Vec::new();
        let mut i: usize = 0;
        proof {
            assert(views_of(norm@) =~= Seq::<Seq<char>>::empty());
            assert(views_of(ws@).subrange(0, 0).map_values(normalize_pred()) =~= Seq::<
                Seq<char>,
            >::empty());
        }
        while i < ws.len()
            invariant
                views_of(ws@) == words(text@),
                i <= ws@.len(),
                views_of(norm@) == views_of(ws@).subrange(0, i as int).map_values(normalize_pred()),
            decreases ws@.len() - i,
        {
            let lw = lower_e(&ws[i]);
            let tw = trim_non_word_e(&lw);
            proof {
                assert(views_of(ws@)[i as int] == ws@[i as int]@);
                assert(tw@ == normalize_word(ws@[i as int]@));
                let pre = views_of(ws@).subrange(0, i as int);
                let pre1 = views_of(ws@).subrange(0, i as int + 1);
                assert(pre1 =~= pre.push(views_of(ws@)[i as int]));
                assert(pre1.map_values(normalize_pred()) =~= pre.map_values(normalize_pred()).push(
                    normalize_word(views_of(ws@)[i as int]),
                ));
                assert(views_of(norm@.push(tw)) =~= views_of(norm@).push(tw@));
            }
            norm.push(tw);
            i += 1;
        }
        proof {
            assert(views_of(ws@).subrange(0, ws@.len() as int) =~= views_of(ws@));
        }
        let nf = filter_non_empty(&norm);
        proof {
            assert(views_of(nf@) == normalized_words(text@));
        }
        let mut uniq: Vec<Vec<char>> = Vec::new();
        let mut j: usize = 0;
        proof {
            assert(views_of(uniq@) =~= Seq::<Seq<char>>::empty());
            assert(views_of(nf@).subrange(0, 0) =~= Seq::<Seq<char>>::empty());
            assert(views_of(uniq@).to_set() =~= views_of(nf@).subrange(0, 0).to_set());
        }
        while j < nf.len()
            invariant
                views_of(nf@) == normalized_words(text@),
                j <= nf@.len(),
                views_of(uniq@).no_duplicates(),
                views_of(uniq@).to_set() == views_of(nf@).subrange(0, j as int).to_set(),
            decreases nf@.len() - j,
        {
            proof {
                assert(views_of(nf@)[j as int] == nf@[j as int]@);
                let pre = views_of(nf@).subrange(0, j as int);
                let pre1 = views_of(nf@).subrange(0, j as int + 1);
                assert(pre1 =~= pre.push(views_of(nf@)[j as int]));
                lemma_to_set_push(pre, views_of(nf@)[j as int]);
            }
            if !contains_vec(&uniq, &nf[j]) {
                let w = copy_chars(&nf[j]);
                proof {
                    assert(views_of(uniq@.push(w)) =~= views_of(uniq@).push(w@));
                    lemma_to_set_push(views_of(uniq@), w@);
                    let old_views = views_of(uniq@);
                    assert forall|a: int, b: int|
                        0 <= a < b < old_views.push(w@).len() implies old_views.push(w@)[a]
                        != old_views.push(w@)[b] by {
                        if b == old_views.len() {
                            assert(!old_views.contains(old_views[a]) ==> false);
                        }
                    }
                }
                uniq.push(w);
            } else {
                proof {
                    let pre = views_of(nf@).subrange(0, j as int);
                    assert(pre.to_set().contains(views_of(nf@)[j as int]));
                    assert(pre.to_set().insert(views_of(nf@)[j as int]) =~= pre.to_set());
                }
            }
            j += 1;
        }
        proof {
            assert(views_of(nf@).subrange(0, nf@.len() as int) =~= views_of(nf@));
            views_of(uniq@).unique_seq_to_set();
        }
        let d = uniq.len() as u128;
        let n = ws.len() as u128;
        if 10 * d > 7 * n {
            20000
        } else if 2 * d > n {
            40000
        } else {
            70000
        }
    }

    /// The punctuation sub-score of a text, in milli-percent.
    pub fn analyze_punctuation(text: &str) -> (r: u32)
        ensures
            r as int == punctuation_score_spec(text@),
            50000 <= r <= 75000,
    {
        let t = chars_of(text);
        if t.len() == 0 {
            return 50000;
        }
        let total = t.len() as u128;
        let excl = count_char_e(&t, '!') as u128;
        let comma = count_char_e(&t, ',') as u128;
        let mut score: u32 = 50000;
        if 200 * excl < total {
            score += 15000;
        }
        if 50 * comma > total && 25 * comma < total {
            score += 10000;
        }
        score
    }

    /// The structural sub-score of a text, in milli-percent.
    pub fn analyze_structure(text: &str) -> (r: u32)
        ensures
            r as int == structure_score_spec(text@),
            40000 <= r <= 60000,
    {
        let t = chars_of(text);
        let ws = words_of(&t);
        let ps = paragraphs_of(&t);
        let wc = ws.len();
        let pc = ps.len();
        proof {
            assert(views_of(ws@).len() == ws@.len());
            assert(views_of(ps@).len() == ps@.len());
        }
        if pc > 1 && wc / pc > 50 && wc / pc < 150 {
            60000
        } else {
            40000
        }
    }
    /// The aggregate AI-likelihood of a text, in milli-percent. Blank text
    /// short-circuits to the neutral 50%; anything else is the weighted
    /// combination of the five sub-scores.
    pub fn analyze(text: &str) -> (r: u32)
        requires
            text@.len() <= MAX_TEXT_LEN,
        ensures
            r as int == aggregate_score_spec(text@),
            0 <= r <= 100000,
    {
        let t = chars_of(text);
        if is_blank_e(&t) {
            return 50000;
        }
        let u = Self::analyze_sentence_uniformity(text);
        let d = Self::analyze_vocabulary_diversity(text);
        let p = Self::detect_ai_phrases(text);
        let pu = Self::analyze_punctuation(text);
        let st = Self::analyze_structure(text);
        let sum: u64 = (u as u64) * 25 + (d as u64) * 20 + (p as u64) * 30 + (pu as u64) * 15 + (
        st as u64) * 10;
        (sum / 100) as u32
    }

    /// Map a milli-percent AI score to its verdict.
    pub fn verdict(ai_milli_percent: u32) -> (r: Verdict)
        ensures
            r == verdict_of(ai_milli_percent as int),
    {
        if ai_milli_percent >= 60000 {
            Verdict::AiGenerated
        } else if ai_milli_percent <= 40000 {
            Verdict::HumanWritten
        } else {
            Verdict::Uncertain
        }
    }

    /// The verdict for a milli-percent AI score, as a display string.
    pub fn get_verdict(ai_milli_percent: u32) -> (r: String)
        ensures
            verdict_of(ai_milli_percent as int) == Verdict::AiGenerated ==> r@ == "AI Generated"@,
            verdict_of(ai_milli_percent as int) == Verdict::HumanWritten ==> r@ == "Human Written"@,
            verdict_of(ai_milli_percent as int) == Verdict::Uncertain ==> r@ == "Uncertain"@,
    {
        match Self::verdict(ai_milli_percent) {
            Verdict::AiGenerated => String::from_str("AI Generated"),
            Verdict::HumanWritten => String::from_str("Human Written"),
            Verdict::Uncertain => String::from_str("Uncertain"),
        }
    }
}

} // verus!
