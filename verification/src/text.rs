//! Lexical metrics: character classes, lowercasing, and segmentation of text
//! into sentences, words and paragraphs.

use vstd::prelude::*;

verus! {

/// A character that ends a sentence.
pub open spec fn is_sentence_end(c: char) -> bool {
    c == '.' || c == '!' || c == '?'
}

/// A whitespace character (the Unicode `White_Space` set).
pub open spec fn is_space_char(c: char) -> bool {
    let u = c as u32;
    u == 0x20 || (0x09 <= u && u <= 0x0D) || u == 0x85 || u == 0xA0 || u == 0x1680
        || (0x2000 <= u && u <= 0x200A) || u == 0x2028 || u == 0x2029 || u == 0x202F
        || u == 0x205F || u == 0x3000
}

/// An ASCII alphanumeric character; these are the characters kept when a
/// word is trimmed during normalization.
pub open spec fn is_word_char(c: char) -> bool {
    let u = c as u32;
    (0x30 <= u && u <= 0x39) || (0x41 <= u && u <= 0x5A) || (0x61 <= u && u <= 0x7A)
}

/// Lowercase an ASCII letter; any other character is left as it is.
pub open spec fn lower_char(c: char) -> char {
    if c == 'A' { 'a' } else if c == 'B' { 'b' } else if c == 'C' { 'c' }
    else if c == 'D' { 'd' } else if c == 'E' { 'e' } else if c == 'F' { 'f' }
    else if c == 'G' { 'g' } else if c == 'H' { 'h' } else if c == 'I' { 'i' }
    else if c == 'J' { 'j' } else if c == 'K' { 'k' } else if c == 'L' { 'l' }
    else if c == 'M' { 'm' } else if c == 'N' { 'n' } else if c == 'O' { 'o' }
    else if c == 'P' { 'p' } else if c == 'Q' { 'q' } else if c == 'R' { 'r' }
    else if c == 'S' { 's' } else if c == 'T' { 't' } else if c == 'U' { 'u' }
    else if c == 'V' { 'v' } else if c == 'W' { 'w' } else if c == 'X' { 'x' }
    else if c == 'Y' { 'y' } else if c == 'Z' { 'z' } else { c }
}

/// Lowercase every character of a sequence.
pub open spec fn lower(s: Seq<char>) -> Seq<char> {
    s.map_values(|c: char| lower_char(c))
}

/// A sequence that holds only whitespace (an empty one included).
pub open spec fn is_blank(s: Seq<char>) -> bool {
    forall|i: int| 0 <= i < s.len() ==> is_space_char(#[trigger] s[i])
}

/// Lowercasing leaves a lowercased character unchanged.
pub proof fn lemma_lower_char_idempotent(c: char)
    ensures
        lower_char(lower_char(c)) == lower_char(c),
{
}

/// Lowercasing a sequence twice is the same as lowercasing it once.
pub proof fn lemma_lower_idempotent(s: Seq<char>)
    ensures
        lower(lower(s)) == lower(s),
{
    assert forall|i: int| 0 <= i < s.len() implies lower(lower(s))[i] == lower(s)[i] by {
        lemma_lower_char_idempotent(s[i]);
    }
    assert(lower(lower(s)) =~= lower(s));
}

/// The views of a sequence of character vectors.
pub open spec fn views_of(s: Seq<Vec<char>>) -> Seq<Seq<char>> {
    s.map_values(|v: Vec<char>| v@)
}

/// The predicate on which sentence segmentation splits.
pub open spec fn sentence_end_pred() -> spec_fn(char) -> bool {
    |c: char| is_sentence_end(c)
}

/// The predicate on which word segmentation splits.
pub open spec fn space_pred() -> spec_fn(char) -> bool {
    |c: char| is_space_char(c)
}

/// Keeps the fragments that hold at least one non-whitespace character.
pub open spec fn non_blank_pred() -> spec_fn(Seq<char>) -> bool {
    |f: Seq<char>| !is_blank(f)
}

/// Keeps the fragments that are not empty.
pub open spec fn non_empty_pred() -> spec_fn(Seq<char>) -> bool {
    |f: Seq<char>| f.len() > 0
}

/// Split a sequence at every character that satisfies `pred`. The separators
/// themselves are dropped; an empty sequence yields one empty fragment, and
/// adjacent separators yield empty fragments between them.
pub open spec fn split_by(s: Seq<char>, pred: spec_fn(char) -> bool) -> Seq<Seq<char>>
    decreases s.len(),
{
    if s.len() == 0 {
        seq![Seq::<char>::empty()]
    } else if pred(s[0]) {
        seq![Seq::<char>::empty()] + split_by(s.drop_first(), pred)
    } else {
        let rest = split_by(s.drop_first(), pred);
        seq![seq![s[0]] + rest[0]] + rest.drop_first()
    }
}

/// A split yields at least one fragment and at most one more fragment than
/// there are characters.
pub proof fn lemma_split_by_len(s: Seq<char>, pred: spec_fn(char) -> bool)
    ensures
        1 <= split_by(s, pred).len() <= s.len() + 1,
    decreases s.len(),
{
    if s.len() > 0 {
        lemma_split_by_len(s.drop_first(), pred);
    }
}

/// No fragment of a split is longer than the sequence that was split.
pub proof fn lemma_split_by_frag_len(s: Seq<char>, pred: spec_fn(char) -> bool)
    ensures
        forall|i: int|
            0 <= i < split_by(s, pred).len() ==> (#[trigger] split_by(s, pred)[i]).len()
                <= s.len(),
    decreases s.len(),
{
    if s.len() > 0 {
        lemma_split_by_frag_len(s.drop_first(), pred);
        lemma_split_by_len(s.drop_first(), pred);
    }
}

/// How a split unfolds at the first separator: if no separator stands before
/// position `k`, the fragments are the prefix up to `k` followed by the split
/// of what comes after `k`; if no separator occurs at all, the whole sequence
/// is the one fragment.
pub proof fn lemma_split_by_step(s: Seq<char>, pred: spec_fn(char) -> bool, k: int)
    requires
        0 <= k <= s.len(),
        forall|j: int| 0 <= j < k ==> !pred(#[trigger] s[j]),
    ensures
        k == s.len() ==> split_by(s, pred) == seq![s],
        k < s.len() && pred(s[k]) ==> split_by(s, pred) == seq![s.subrange(0, k)] + split_by(
            s.subrange(k + 1, s.len() as int),
            pred,
        ),
    decreases k,
{
    if k == 0 {
        if k == s.len() {
            assert(s =~= Seq::<char>::empty());
            assert(split_by(s, pred) =~= seq![s]);
        } else if pred(s[0]) {
            assert(s.subrange(0, 0) =~= Seq::<char>::empty());
            assert(s.subrange(1, s.len() as int) =~= s.drop_first());
        }
    } else {
        let d = s.drop_first();
        lemma_split_by_step(d, pred, k - 1);
        lemma_split_by_len(d, pred);
        let rest = split_by(d, pred);
        if k == s.len() {
            // rest == seq![d], so the first fragment is all of s
            assert(!pred(s[0]));
            assert(rest == seq![d]);
            assert(rest.drop_first() =~= Seq::<Seq<char>>::empty());
            assert(seq![s[0]] + rest[0] =~= s);
            assert(split_by(s, pred) =~= seq![s]);
        } else if pred(s[k]) {
            assert(!pred(s[0]));
            assert(d.subrange(0, k - 1) =~= s.subrange(0, k).drop_first());
            assert(rest == seq![d.subrange(0, k - 1)] + split_by(
                d.subrange(k, d.len() as int),
                pred,
            ));
            assert(seq![s[0]] + rest[0] =~= s.subrange(0, k));
            assert(d.subrange(k, d.len() as int) =~= s.subrange(k + 1, s.len() as int));
            assert((seq![s[0]] + rest[0]).len() > 0);
            assert(split_by(s, pred) =~= seq![s.subrange(0, k)] + split_by(
                s.subrange(k + 1, s.len() as int),
                pred,
            ));
        }
    }
}

/// Split a sequence at every (non-overlapping, leftmost-first) occurrence of
/// two consecutive newline characters.
pub open spec fn split_dnl(s: Seq<char>) -> Seq<Seq<char>>
    decreases s.len(),
{
    if s.len() < 2 {
        seq![s]
    } else if s[0] == '\n' && s[1] == '\n' {
        seq![Seq::<char>::empty()] + split_dnl(s.subrange(2, s.len() as int))
    } else {
        let rest = split_dnl(s.drop_first());
        seq![seq![s[0]] + rest[0]] + rest.drop_first()
    }
}

/// A blank-line split yields at least one fragment.
pub proof fn lemma_split_dnl_len(s: Seq<char>)
    ensures
        1 <= split_dnl(s).len(),
    decreases s.len(),
{
    if s.len() >= 2 {
        if s[0] == '\n' && s[1] == '\n' {
            lemma_split_dnl_len(s.subrange(2, s.len() as int));
        } else {
            lemma_split_dnl_len(s.drop_first());
        }
    }
}

/// How a blank-line split unfolds at the first double newline: if none starts
/// before position `k`, the fragments are the prefix up to `k` followed by the
/// split of what comes after the separator; with no occurrence at all the
/// whole sequence is the one fragment.
pub proof fn lemma_split_dnl_step(s: Seq<char>, k: int)
    requires
        0 <= k <= s.len(),
        forall|j: int| 0 <= j < k && j + 1 < s.len() ==> !(#[trigger] s[j] == '\n' && s[j + 1] == '\n'),
    ensures
        k == s.len() ==> split_dnl(s) == seq![s],
        k + 1 < s.len() && s[k] == '\n' && s[k + 1] == '\n' ==> split_dnl(s) == seq![
            s.subrange(0, k),
        ] + split_dnl(s.subrange(k + 2, s.len() as int)),
    decreases k,
{
    if k == 0 {
        if k == s.len() || s.len() < 2 {
            assert(s.len() < 2 ==> split_dnl(s) =~= seq![s]);
        } else if s[0] == '\n' && s[1] == '\n' {
            assert(s.subrange(0, 0) =~= Seq::<char>::empty());
        }
    } else {
        let d = s.drop_first();
        lemma_split_dnl_step(d, k - 1);
        lemma_split_dnl_len(d);
        let rest = split_dnl(d);
        if k == s.len() {
            if s.len() < 2 {
                assert(split_dnl(s) =~= seq![s]);
            } else {
                assert(seq![s[0]] + rest[0] =~= s);
                assert(split_dnl(s) =~= seq![s]);
            }
        } else if k + 1 < s.len() && s[k] == '\n' && s[k + 1] == '\n' {
            assert(!(s[0] == '\n' && s[1] == '\n'));
            assert(d.subrange(0, k - 1) =~= s.subrange(0, k).drop_first());
            assert(rest == seq![d.subrange(0, k - 1)] + split_dnl(d.subrange(k + 1, d.len() as int)));
            assert(seq![s[0]] + rest[0] =~= s.subrange(0, k));
            assert(d.subrange(k + 1, d.len() as int) =~= s.subrange(k + 2, s.len() as int));
            assert(split_dnl(s) =~= seq![s.subrange(0, k)] + split_dnl(
                s.subrange(k + 2, s.len() as int),
            ));
        }
    }
}

/// The characters of a string, in order, as a vector.
pub fn chars_of(s: &str) -> (r: Vec<char>)
    ensures
        r@ == s@,
{
    let n = s.unicode_len();
    let mut r: Vec<char> = Vec::new();
    let mut i: usize = 0;
    while i < n
        invariant
            n == s@.len(),
            i <= n,
            r@ == s@.subrange(0, i as int),
        decreases n - i,
    {
        r.push(s.get_char(i));
        i += 1;
        assert(r@ =~= s@.subrange(0, i as int));
    }
    assert(r@ =~= s@);
    r
}

/// Whether a character ends a sentence.
pub fn is_sentence_end_e(c: char) -> (r: bool)
    ensures
        r == is_sentence_end(c),
{
    c == '.' || c == '!' || c == '?'
}

/// Whether a character is whitespace.
pub fn is_space_char_e(c: char) -> (r: bool)
    ensures
        r == is_space_char(c),
{
    let u = c as u32;
    u == 0x20 || (0x09 <= u && u <= 0x0D) || u == 0x85 || u == 0xA0 || u == 0x1680
        || (0x2000 <= u && u <= 0x200A) || u == 0x2028 || u == 0x2029 || u == 0x202F
        || u == 0x205F || u == 0x3000
}

/// Whether a character is ASCII alphanumeric.
pub fn is_word_char_e(c: char) -> (r: bool)
    ensures
        r == is_word_char(c),
{
    let u = c as u32;
    (0x30 <= u && u <= 0x39) || (0x41 <= u && u <= 0x5A) || (0x61 <= u && u <= 0x7A)
}

/// Lowercase one character.
pub fn lower_char_e(c: char) -> (r: char)
    ensures
        r == lower_char(c),
{
    match c {
        'A' => 'a', 'B' => 'b', 'C' => 'c', 'D' => 'd', 'E' => 'e', 'F' => 'f',
        'G' => 'g', 'H' => 'h', 'I' => 'i', 'J' => 'j', 'K' => 'k', 'L' => 'l',
        'M' => 'm', 'N' => 'n', 'O' => 'o', 'P' => 'p', 'Q' => 'q', 'R' => 'r',
        'S' => 's', 'T' => 't', 'U' => 'u', 'V' => 'v', 'W' => 'w', 'X' => 'x',
        'Y' => 'y', 'Z' => 'z', _ => c,
    }
}

/// Lowercase every character of a vector.
pub fn lower_e(s: &Vec<char>) -> (r: Vec<char>)
    ensures
        r@ == lower(s@),
{
    let mut r: Vec<char> = Vec::new();
    let mut i: usize = 0;
    while i < s.len()
        invariant
            i <= s@.len(),
            r@ == lower(s@.subrange(0, i as int)),
        decreases s@.len() - i,
    {
        r.push(lower_char_e(s[i]));
        i += 1;
        assert(r@ =~= lower(s@.subrange(0, i as int)));
    }
    assert(s@.subrange(0, s@.len() as int) =~= s@);
    r
}

/// Whether a vector of characters holds only whitespace.
pub fn is_blank_e(s: &Vec<char>) -> (r: bool)
    ensures
        r == is_blank(s@),
{
    let mut i: usize = 0;
    while i < s.len()
        invariant
            i <= s@.len(),
            forall|j: int| 0 <= j < i ==> is_space_char(#[trigger] s@[j]),
        decreases s@.len() - i,
    {
        if !is_space_char_e(s[i]) {
            return false;
        }
        i += 1;
    }
    true
}

/// A copy of a character vector.
pub fn copy_chars(v: &Vec<char>) -> (r: Vec<char>)
    ensures
        r@ == v@,
{
    let mut r: Vec<char> = Vec::new();
    let mut i: usize = 0;
    while i < v.len()
        invariant
            i <= v@.len(),
            r@ == v@.subrange(0, i as int),
        decreases v@.len() - i,
    {
        r.push(v[i]);
        i += 1;
        assert(r@ =~= v@.subrange(0, i as int));
    }
    assert(r@ =~= v@);
    r
}

/// Split a character vector at every sentence-ending character.
pub fn split_sentences_raw(t: &Vec<char>) -> (r: Vec<Vec<char>>)
    ensures
        views_of(r@) == split_by(t@, sentence_end_pred()),
{
    let ghost pred = sentence_end_pred();
    let mut out: Vec<Vec<char>> = Vec::new();
    let mut cur: Vec<char> = Vec::new();
    let ghost mut start: int = 0;
    let mut i: usize = 0;
    proof {
        assert(t@.subrange(0, t@.len() as int) =~= t@);
        assert(views_of(out@) =~= Seq::<Seq<char>>::empty());
        assert(cur@ =~= t@.subrange(0, 0));
    }
    while i < t.len()
        invariant
            0 <= start <= i as int <= t@.len(),
            cur@ == t@.subrange(start, i as int),
            forall|j: int| start <= j < i as int ==> !pred(#[trigger] t@[j]),
            split_by(t@, pred) == views_of(out@) + split_by(
                t@.subrange(start, t@.len() as int),
                pred,
            ),
            pred == sentence_end_pred(),
        decreases t@.len() - i,
    {
        let c = t[i];
        if is_sentence_end_e(c) {
            proof {
                let suffix = t@.subrange(start, t@.len() as int);
                lemma_split_by_step(suffix, pred, i as int - start);
                assert(suffix.subrange(0, i as int - start) =~= t@.subrange(start, i as int));
                assert(suffix.subrange(i as int - start + 1, suffix.len() as int) =~= t@.subrange(
                    i as int + 1,
                    t@.len() as int,
                ));
                assert(views_of(out@.push(cur)) =~= views_of(out@).push(cur@));
            }
            out.push(cur);
            cur = Vec::new();
            proof {
                start = i as int + 1;
                assert(cur@ =~= t@.subrange(start, i as int + 1));
            }
        } else {
            cur.push(c);
            assert(cur@ =~= t@.subrange(start, i as int + 1));
        }
        i += 1;
    }
    proof {
        let suffix = t@.subrange(start, t@.len() as int);
        lemma_split_by_step(suffix, pred, suffix.len() as int);
        assert(suffix =~= cur@);
        assert(views_of(out@.push(cur)) =~= views_of(out@).push(cur@));
        assert(views_of(out@) + split_by(suffix, pred) =~= views_of(out@).push(suffix));
    }
    out.push(cur);
    out
}

/// Split a character vector at every whitespace character.
pub fn split_spaces_raw(t: &Vec<char>) -> (r: Vec<Vec<char>>)
    ensures
        views_of(r@) == split_by(t@, space_pred()),
{
    let ghost pred = space_pred();
    let mut out: Vec<Vec<char>> = Vec::new();
    let mut cur: Vec<char> = Vec::new();
    let ghost mut start: int = 0;
    let mut i: usize = 0;
    proof {
        assert(t@.subrange(0, t@.len() as int) =~= t@);
        assert(views_of(out@) =~= Seq::<Seq<char>>::empty());
        assert(cur@ =~= t@.subrange(0, 0));
    }
    while i < t.len()
        invariant
            0 <= start <= i as int <= t@.len(),
            cur@ == t@.subrange(start, i as int),
            forall|j: int| start <= j < i as int ==> !pred(#[trigger] t@[j]),
            split_by(t@, pred) == views_of(out@) + split_by(
                t@.subrange(start, t@.len() as int),
                pred,
            ),
            pred == space_pred(),
        decreases t@.len() - i,
    {
        let c = t[i];
        if is_space_char_e(c) {
            proof {
                let suffix = t@.subrange(start, t@.len() as int);
                lemma_split_by_step(suffix, pred, i as int - start);
                assert(suffix.subrange(0, i as int - start) =~= t@.subrange(start, i as int));
                assert(suffix.subrange(i as int - start + 1, suffix.len() as int) =~= t@.subrange(
                    i as int + 1,
                    t@.len() as int,
                ));
                assert(views_of(out@.push(cur)) =~= views_of(out@).push(cur@));
            }
            out.push(cur);
            cur = Vec::new();
            proof {
                start = i as int + 1;
                assert(cur@ =~= t@.subrange(start, i as int + 1));
            }
        } else {
            cur.push(c);
            assert(cur@ =~= t@.subrange(start, i as int + 1));
        }
        i += 1;
    }
    proof {
        let suffix = t@.subrange(start, t@.len() as int);
        lemma_split_by_step(suffix, pred, suffix.len() as int);
        assert(suffix =~= cur@);
        assert(views_of(out@.push(cur)) =~= views_of(out@).push(cur@));
        assert(views_of(out@) + split_by(suffix, pred) =~= views_of(out@).push(suffix));
    }
    out.push(cur);
    out
}

/// Split a character vector at every double newline.
pub fn split_paragraphs_raw(t: &Vec<char>) -> (r: Vec<Vec<char>>)
    ensures
        views_of(r@) == split_dnl(t@),
{
    let mut out: Vec<Vec<char>> = Vec::new();
    let mut cur: Vec<char> = Vec::new();
    let ghost mut start: int = 0;
    let mut i: usize = 0;
    proof {
        assert(t@.subrange(0, t@.len() as int) =~= t@);
        assert(views_of(out@) =~= Seq::<Seq<char>>::empty());
        assert(cur@ =~= t@.subrange(0, 0));
    }
    while i < t.len()
        invariant
            0 <= start <= i as int <= t@.len(),
            cur@ == t@.subrange(start, i as int),
            forall|j: int|
                start <= j < i as int && j + 1 < t@.len() ==> !(#[trigger] t@[j] == '\n' && t@[j
                    + 1] == '\n'),
            split_dnl(t@) == views_of(out@) + split_dnl(t@.subrange(start, t@.len() as int)),
        decreases t@.len() - i,
    {
        let c = t[i];
        if c == '\n' && i + 1 < t.len() && t[i + 1] == '\n' {
            proof {
                let suffix = t@.subrange(start, t@.len() as int);
                let k = i as int - start;
                assert forall|j: int| 0 <= j < k && j + 1 < suffix.len() implies !(#[trigger] suffix[j]
                    == '\n' && suffix[j + 1] == '\n') by {
                    assert(suffix[j] == t@[j + start]);
                    assert(suffix[j + 1] == t@[j + start + 1]);
                }
                lemma_split_dnl_step(suffix, k);
                assert(suffix[k] == '\n' && suffix[k + 1] == '\n');
                assert(suffix.subrange(0, k) =~= t@.subrange(start, i as int));
                assert(suffix.subrange(k + 2, suffix.len() as int) =~= t@.subrange(
                    i as int + 2,
                    t@.len() as int,
                ));
                assert(views_of(out@.push(cur)) =~= views_of(out@).push(cur@));
            }
            out.push(cur);
            cur = Vec::new();
            proof {
                start = i as int + 2;
                assert(cur@ =~= t@.subrange(start, i as int + 2));
            }
            i += 2;
        } else {
            cur.push(c);
            assert(cur@ =~= t@.subrange(start, i as int + 1));
            i += 1;
        }
    }
    proof {
        let suffix = t@.subrange(start, t@.len() as int);
        assert forall|j: int| 0 <= j < suffix.len() && j + 1 < suffix.len() implies !(
        #[trigger] suffix[j] == '\n' && suffix[j + 1] == '\n') by {
            assert(suffix[j] == t@[j + start]);
            assert(suffix[j + 1] == t@[j + start + 1]);
        }
        lemma_split_dnl_step(suffix, suffix.len() as int);
        assert(suffix =~= cur@);
        assert(views_of(out@.push(cur)) =~= views_of(out@).push(cur@));
        assert(views_of(out@) + split_dnl(suffix) =~= views_of(out@).push(suffix));
    }
    out.push(cur);
    out
}

/// Filter distributes over pushing one element.
pub proof fn lemma_filter_push<A>(s: Seq<A>, x: A, pred: spec_fn(A) -> bool)
    ensures
        (s.push(x)).filter(pred) == s.filter(pred) + (if pred(x) {
            seq![x]
        } else {
            Seq::<A>::empty()
        }),
{
    reveal(Seq::filter);
    assert(s.push(x).drop_last() =~= s);
    assert(s.push(x).last() == x);
    if pred(x) {
        assert(s.filter(pred).push(x) =~= s.filter(pred) + seq![x]);
    } else {
        assert(s.filter(pred) =~= s.filter(pred) + Seq::<A>::empty());
    }
}

/// Keep the fragments that hold at least one non-whitespace character.
pub fn filter_non_blank(v: &Vec<Vec<char>>) -> (r: Vec<Vec<char>>)
    ensures
        views_of(r@) == views_of(v@).filter(non_blank_pred()),
{
    let mut r: Vec<Vec<char>> = Vec::new();
    let mut i: usize = 0;
    proof {
        reveal(Seq::filter);
        assert(views_of(v@.subrange(0, 0)) =~= Seq::<Seq<char>>::empty());
        assert(views_of(r@) =~= Seq::<Seq<char>>::empty());
    }
    while i < v.len()
        invariant
            i <= v@.len(),
            views_of(r@) == views_of(v@.subrange(0, i as int)).filter(non_blank_pred()),
        decreases v@.len() - i,
    {
        proof {
            let prefix = views_of(v@.subrange(0, i as int));
            lemma_filter_push(prefix, v@[i as int]@, non_blank_pred());
            assert(views_of(v@.subrange(0, i as int + 1)) =~= prefix.push(v@[i as int]@));
        }
        if !is_blank_e(&v[i]) {
            let w = copy_chars(&v[i]);
            proof {
                assert(views_of(r@.push(w)) =~= views_of(r@).push(w@));
                assert(views_of(r@).push(w@) =~= views_of(r@) + seq![v@[i as int]@]);
            }
            r.push(w);
        } else {
            assert(views_of(r@) =~= views_of(r@) + Seq::<Seq<char>>::empty());
        }
        i += 1;
    }
    assert(v@.subrange(0, v@.len() as int) =~= v@);
    r
}

/// Keep the fragments that are not empty.
pub fn filter_non_empty(v: &Vec<Vec<char>>) -> (r: Vec<Vec<char>>)
    ensures
        views_of(r@) == views_of(v@).filter(non_empty_pred()),
{
    let mut r: Vec<Vec<char>> = Vec::new();
    let mut i: usize = 0;
    proof {
        reveal(Seq::filter);
        assert(views_of(v@.subrange(0, 0)) =~= Seq::<Seq<char>>::empty());
        assert(views_of(r@) =~= Seq::<Seq<char>>::empty());
    }
    while i < v.len()
        invariant
            i <= v@.len(),
            views_of(r@) == views_of(v@.subrange(0, i as int)).filter(non_empty_pred()),
        decreases v@.len() - i,
    {
        proof {
            let prefix = views_of(v@.subrange(0, i as int));
            lemma_filter_push(prefix, v@[i as int]@, non_empty_pred());
            assert(views_of(v@.subrange(0, i as int + 1)) =~= prefix.push(v@[i as int]@));
        }
        if v[i].len() > 0 {
            let w = copy_chars(&v[i]);
            proof {
                assert(views_of(r@.push(w)) =~= views_of(r@).push(w@));
                assert(views_of(r@).push(w@) =~= views_of(r@) + seq![v@[i as int]@]);
            }
            r.push(w);
        } else {
            assert(views_of(r@) =~= views_of(r@) + Seq::<Seq<char>>::empty());
        }
        i += 1;
    }
    assert(v@.subrange(0, v@.len() as int) =~= v@);
    r
}

/// The sentences of a text: fragments between sentence-ending characters
/// that hold at least one non-whitespace character.
pub open spec fn sentences(t: Seq<char>) -> Seq<Seq<char>> {
    split_by(t, sentence_end_pred()).filter(non_blank_pred())
}

/// The words of a text: maximal runs of non-whitespace characters.
pub open spec fn words(t: Seq<char>) -> Seq<Seq<char>> {
    split_by(t, space_pred()).filter(non_empty_pred())
}

/// The paragraphs of a text: blocks between blank lines that hold at least
/// one non-whitespace character.
pub open spec fn paragraphs(t: Seq<char>) -> Seq<Seq<char>> {
    split_dnl(t).filter(non_blank_pred())
}

/// Elementwise bounds survive filtering.
pub proof fn lemma_filter_len_bound(ss: Seq<Seq<char>>, pred: spec_fn(Seq<char>) -> bool, bound: int)
    requires
        forall|i: int| 0 <= i < ss.len() ==> (#[trigger] ss[i]).len() <= bound,
    ensures
        forall|i: int|
            0 <= i < ss.filter(pred).len() ==> (#[trigger] ss.filter(pred)[i]).len() <= bound,
    decreases ss.len(),
{
    reveal(Seq::filter);
    if ss.len() > 0 {
        assert forall|i: int| 0 <= i < ss.drop_last().len() implies (#[trigger] ss.drop_last()[i]).len()
            <= bound by {
            assert(ss.drop_last()[i] == ss[i]);
        }
        lemma_filter_len_bound(ss.drop_last(), pred, bound);
        assert(ss.last() == ss[ss.len() - 1]);
        let f = ss.filter(pred);
        let g = ss.drop_last().filter(pred);
        assert forall|i: int| 0 <= i < f.len() implies (#[trigger] f[i]).len() <= bound by {
            if pred(ss.last()) {
                assert(f == g.push(ss.last()));
                if i < g.len() {
                    assert(f[i] == g[i]);
                }
            } else {
                assert(f == g);
            }
        }
    }
}

/// The sentences of a text: a fragment count bound and a length bound on
/// each fragment.
pub proof fn lemma_sentences_bounds(t: Seq<char>)
    ensures
        sentences(t).len() <= t.len() + 1,
        forall|i: int| 0 <= i < sentences(t).len() ==> (#[trigger] sentences(t)[i]).len() <= t.len(),
{
    let raw = split_by(t, sentence_end_pred());
    lemma_split_by_len(t, sentence_end_pred());
    lemma_split_by_frag_len(t, sentence_end_pred());
    raw.lemma_filter_len(non_blank_pred());
    lemma_filter_len_bound(raw, non_blank_pred(), t.len() as int);
}

/// The sentences of a text, as vectors.
pub fn sentences_of(t: &Vec<char>) -> (r: Vec<Vec<char>>)
    ensures
        views_of(r@) == sentences(t@),
{
    let raw = split_sentences_raw(t);
    filter_non_blank(&raw)
}

/// The words of a text, as vectors.
pub fn words_of(t: &Vec<char>) -> (r: Vec<Vec<char>>)
    ensures
        views_of(r@) == words(t@),
{
    let raw = split_spaces_raw(t);
    filter_non_empty(&raw)
}

/// The paragraphs of a text, as vectors.
pub fn paragraphs_of(t: &Vec<char>) -> (r: Vec<Vec<char>>)
    ensures
        views_of(r@) == paragraphs(t@),
{
    let raw = split_paragraphs_raw(t);
    filter_non_blank(&raw)
}

/// The position of the first ASCII alphanumeric character, or the length if
/// there is none.
pub open spec fn first_word_idx(s: Seq<char>) -> int
    decreases s.len(),
{
    if s.len() == 0 {
        0
    } else if is_word_char(s[0]) {
        0
    } else {
        1 + first_word_idx(s.drop_first())
    }
}

/// One past the position of the last ASCII alphanumeric character, or zero if
/// there is none.
pub open spec fn word_end_idx(s: Seq<char>) -> int
    decreases s.len(),
{
    if s.len() == 0 {
        0
    } else if is_word_char(s.last()) {
        s.len() as int
    } else {
        word_end_idx(s.drop_last())
    }
}

/// What `first_word_idx` returns: everything before it fails the class, and
/// it points at a member of the class when it is not the length.
pub proof fn lemma_first_word_idx(s: Seq<char>)
    ensures
        0 <= first_word_idx(s) <= s.len(),
        forall|j: int| 0 <= j < first_word_idx(s) ==> !is_word_char(#[trigger] s[j]),
        first_word_idx(s) < s.len() ==> is_word_char(s[first_word_idx(s)]),
    decreases s.len(),
{
    if s.len() > 0 && !is_word_char(s[0]) {
        lemma_first_word_idx(s.drop_first());
        assert forall|j: int| 0 <= j < first_word_idx(s) implies !is_word_char(#[trigger] s[j]) by {
            if j > 0 {
                assert(s[j] == s.drop_first()[j - 1]);
            }
        }
        if first_word_idx(s) < s.len() {
            assert(s[first_word_idx(s)] == s.drop_first()[first_word_idx(s) - 1]);
        }
    }
}

/// What `word_end_idx` returns: everything from it on fails the class, and
/// the character just before it is a member when it is positive.
pub proof fn lemma_word_end_idx(s: Seq<char>)
    ensures
        0 <= word_end_idx(s) <= s.len(),
        forall|j: int| word_end_idx(s) <= j < s.len() ==> !is_word_char(#[trigger] s[j]),
        word_end_idx(s) > 0 ==> is_word_char(s[word_end_idx(s) - 1]),
    decreases s.len(),
{
    if s.len() > 0 && !is_word_char(s.last()) {
        lemma_word_end_idx(s.drop_last());
        assert(s.last() == s[s.len() - 1]);
        assert forall|j: int| word_end_idx(s) <= j < s.len() implies !is_word_char(#[trigger] s[j]) by {
            if j < s.len() - 1 {
                assert(s[j] == s.drop_last()[j]);
            }
        }
        if word_end_idx(s) > 0 {
            assert(s[word_end_idx(s) - 1] == s.drop_last()[word_end_idx(s) - 1]);
        }
    }
}

/// A position with the first-member property is `first_word_idx`.
pub proof fn lemma_first_word_idx_is(s: Seq<char>, k: int)
    requires
        0 <= k <= s.len(),
        forall|j: int| 0 <= j < k ==> !is_word_char(#[trigger] s[j]),
        k < s.len() ==> is_word_char(s[k]),
    ensures
        first_word_idx(s) == k,
{
    lemma_first_word_idx(s);
    let f = first_word_idx(s);
    if f < k {
        assert(!is_word_char(s[f]));
    } else if k < f {
        assert(!is_word_char(s[k]));
    }
}

/// A position with the last-member property is `word_end_idx`.
pub proof fn lemma_word_end_idx_is(s: Seq<char>, k: int)
    requires
        0 <= k <= s.len(),
        forall|j: int| k <= j < s.len() ==> !is_word_char(#[trigger] s[j]),
        k > 0 ==> is_word_char(s[k - 1]),
    ensures
        word_end_idx(s) == k,
{
    lemma_word_end_idx(s);
    let e = word_end_idx(s);
    if e < k {
        assert(!is_word_char(s[k - 1]));
    } else if k < e {
        assert(!is_word_char(s[e - 1]));
    }
}

/// Strip every non-alphanumeric character from both ends of a sequence.
pub open spec fn trim_non_word(s: Seq<char>) -> Seq<char> {
    if first_word_idx(s) >= word_end_idx(s) {
        Seq::<char>::empty()
    } else {
        s.subrange(first_word_idx(s), word_end_idx(s))
    }
}

/// A word normalized for the diversity count: lowercased, then stripped of
/// non-alphanumeric characters at both ends.
pub open spec fn normalize_word(w: Seq<char>) -> Seq<char> {
    trim_non_word(lower(w))
}

/// Strip every non-alphanumeric character from both ends of a vector.
pub fn trim_non_word_e(s: &Vec<char>) -> (r: Vec<char>)
    ensures
        r@ == trim_non_word(s@),
{
    let n = s.len();
    let mut a: usize = 0;
    while a < n && !is_word_char_e(s[a])
        invariant
            a <= n == s@.len(),
            forall|j: int| 0 <= j < a ==> !is_word_char(#[trigger] s@[j]),
        decreases n - a,
    {
        a += 1;
    }
    proof {
        lemma_first_word_idx_is(s@, a as int);
    }
    if a == n {
        proof {
            lemma_word_end_idx(s@);
            assert(trim_non_word(s@) =~= Seq::<char>::empty());
        }
        let r: Vec<char> = Vec::new();
        return r;
    }
    let mut b: usize = n;
    while b > a && !is_word_char_e(s[b - 1])
        invariant
            a <= b <= n == s@.len(),
            a < n,
            is_word_char(s@[a as int]),
            forall|j: int| b <= j < n ==> !is_word_char(#[trigger] s@[j]),
        decreases b,
    {
        b -= 1;
    }
    proof {
        assert(is_word_char(s@[b - 1]));
        lemma_word_end_idx_is(s@, b as int);
    }
    let mut r: Vec<char> = Vec::new();
    let mut i: usize = a;
    while i < b
        invariant
            a <= i <= b <= s@.len(),
            r@ == s@.subrange(a as int, i as int),
        decreases b - i,
    {
        r.push(s[i]);
        i += 1;
        assert(r@ =~= s@.subrange(a as int, i as int));
    }
    r
}

/// Whether `p` occurs as a contiguous run inside `s`.
pub open spec fn contains_sub(s: Seq<char>, p: Seq<char>) -> bool {
    exists|i: int|
        0 <= i && i + p.len() <= s.len() && #[trigger] s.subrange(i, i + p.len() as int) == p
}

/// Search for `p` as a contiguous run inside `s`.
pub fn contains_sub_e(s: &Vec<char>, p: &Vec<char>) -> (r: bool)
    ensures
        r == contains_sub(s@, p@),
{
    let n = s.len();
    let m = p.len();
    if m > n {
        return false;
    }
    let mut i: usize = 0;
    while i <= n - m
        invariant
            m <= n,
            n == s@.len(),
            m == p@.len(),
            i <= n - m + 1,
            forall|k: int| 0 <= k < i ==> #[trigger] s@.subrange(k, k + m as int) != p@,
        decreases n - m - i + 1,
    {
        let mut j: usize = 0;
        while j < m && s[i + j] == p[j]
            invariant
                m <= n,
                n == s@.len(),
                m == p@.len(),
                i + m <= n,
                j <= m,
                forall|l: int| 0 <= l < j ==> s@[i + l] == p@[l],
            decreases m - j,
        {
            j += 1;
        }
        if j == m {
            proof {
                assert(s@.subrange(i as int, i as int + m as int) =~= p@);
            }
            return true;
        }
        proof {
            assert(s@.subrange(i as int, i as int + m as int)[j as int] != p@[j as int]);
        }
        i += 1;
    }
    false
}

/// The sum of a sequence of integers.
pub open spec fn sum_of(s: Seq<int>) -> int
    decreases s.len(),
{
    if s.len() == 0 {
        0
    } else {
        sum_of(s.drop_last()) + s.last()
    }
}

/// The sum of the squares of a sequence of integers.
pub open spec fn sum_sq(s: Seq<int>) -> int
    decreases s.len(),
{
    if s.len() == 0 {
        0
    } else {
        sum_sq(s.drop_last()) + s.last() * s.last()
    }
}

/// How often a character occurs in a sequence.
pub open spec fn count_char(s: Seq<char>, c: char) -> int
    decreases s.len(),
{
    if s.len() == 0 {
        0
    } else {
        count_char(s.drop_last(), c) + if s.last() == c {
            1int
        } else {
            0int
        }
    }
}

/// Count how often a character occurs in a vector.
pub fn count_char_e(s: &Vec<char>, c: char) -> (r: usize)
    ensures
        r as int == count_char(s@, c),
{
    let mut r: usize = 0;
    let mut i: usize = 0;
    proof {
        assert(s@.subrange(0, 0) =~= Seq::<char>::empty());
    }
    while i < s.len()
        invariant
            i <= s@.len(),
            r as int == count_char(s@.subrange(0, i as int), c),
            r <= i,
        decreases s@.len() - i,
    {
        proof {
            let p = s@.subrange(0, i as int + 1);
            assert(p.drop_last() =~= s@.subrange(0, i as int));
            assert(p.last() == s@[i as int]);
        }
        if s[i] == c {
            r += 1;
        }
        i += 1;
    }
    assert(s@.subrange(0, s@.len() as int) =~= s@);
    r
}

} // verus!
