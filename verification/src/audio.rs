//! The decisions of the recording and transcription pipeline: merging overlapping
//! transcription chunks into the running transcript.
use vstd::prelude::*;
use std::collections::BTreeMap;
use crate::text::{
    from_chars, join, join_chars, space, split_words, split_ws, to_chars, trim, trim_chars,
    trim_ws, views, TrimMode,
};
use crate::transcript::{clean, cleaned, eq_ignore_ascii_case, eq_ignore_case_chars, CleanConfig};
use crate::topic::{is_new_topic, new_topic};
use vstd::utf8::{encode_scalar, encode_utf8};

verus! {

/// Two transcript words match when their alphanumeric cores are equal up to ASCII case.
pub open spec fn words_match(a: Seq<char>, b: Seq<char>) -> bool {
    eq_ignore_ascii_case(trim(a, TrimMode::NonAlphanumeric), trim(b, TrimMode::NonAlphanumeric))
}

/// The last `k` words of `ex` match the first `k` words of `inc`, one by one.
pub open spec fn overlaps(ex: Seq<Seq<char>>, inc: Seq<Seq<char>>, k: int) -> bool {
    &&& 0 <= k <= ex.len()
    &&& k <= inc.len()
    &&& forall|j: int| 0 <= j < k ==> #[trigger] words_match(ex[ex.len() - k + j], inc[j])
}

/// The largest `k` no greater than `m` for which the last `k` words of `ex` match the
/// first `k` words of `inc` (zero when there is none).
pub open spec fn longest_overlap(ex: Seq<Seq<char>>, inc: Seq<Seq<char>>, m: int) -> int
    decreases m,
{
    if m <= 0 {
        0
    } else if overlaps(ex, inc, m) {
        m
    } else {
        longest_overlap(ex, inc, m - 1)
    }
}

/// The smaller of two integers.
pub open spec fn min(a: int, b: int) -> int {
    if a <= b {
        a
    } else {
        b
    }
}

/// The transcript after `incoming` is appended to `existing`, or `None` when `incoming`
/// brings no new word: it is blank, or all its words repeat the end of `existing`. The
/// words of `incoming` that overlap the end of `existing` are dropped and the rest is
/// appended, after a space unless `existing` is blank.
pub open spec fn merged_transcript(existing: Seq<char>, incoming: Seq<char>) -> Option<Seq<char>> {
    let inc = split_ws(incoming);
    let ex = split_ws(existing);
    let o = longest_overlap(ex, inc, min(ex.len() as int, inc.len() as int));
    if inc.len() == 0 || o == inc.len() {
        None
    } else {
        let sep = if trim_ws(existing).len() > 0 {
            space()
        } else {
            seq![]
        };
        Some(existing + sep + join(inc.skip(o), space()))
    }
}

proof fn lemma_longest_overlap(ex: Seq<Seq<char>>, inc: Seq<Seq<char>>, m: int, k: int)
    requires
        0 <= k <= m,
        k == 0 || overlaps(ex, inc, k),
        forall|s: int| k < s <= m ==> !overlaps(ex, inc, s),
    ensures
        longest_overlap(ex, inc, m) == k,
    decreases m,
{
    if m > k {
        lemma_longest_overlap(ex, inc, m - 1, k);
    }
}

fn overlap_at(ex: &Vec<Vec<char>>, inc: &Vec<Vec<char>>, k: usize, Ghost(exw): Ghost<Seq<Seq<char>>>, Ghost(incw): Ghost<Seq<Seq<char>>>) -> (b: bool)
    requires
        k <= ex.len(),
        k <= inc.len(),
        ex.len() == exw.len(),
        inc.len() == incw.len(),
        forall|j: int| 0 <= j < ex.len() ==> #[trigger] ex@[j]@ == trim(exw[j], TrimMode::NonAlphanumeric),
        forall|j: int| 0 <= j < inc.len() ==> #[trigger] inc@[j]@ == trim(incw[j], TrimMode::NonAlphanumeric),
    ensures
        b == overlaps(exw, incw, k as int),
{
    let base = ex.len() - k;
    let mut j: usize = 0;
    while j < k
        invariant
            j <= k,
            k <= ex.len(),
            k <= inc.len(),
            base == ex.len() - k,
            ex.len() == exw.len(),
            inc.len() == incw.len(),
            forall|t: int| 0 <= t < ex.len() ==> #[trigger] ex@[t]@ == trim(exw[t], TrimMode::NonAlphanumeric),
            forall|t: int| 0 <= t < inc.len() ==> #[trigger] inc@[t]@ == trim(incw[t], TrimMode::NonAlphanumeric),
            forall|t: int| 0 <= t < j ==> #[trigger] words_match(exw[exw.len() - k + t], incw[t]),
        decreases k - j,
    {
        assert(ex@[base + j]@ == trim(exw[exw.len() - k + j], TrimMode::NonAlphanumeric));
        assert(inc@[j as int]@ == trim(incw[j as int], TrimMode::NonAlphanumeric));
        if !eq_ignore_case_chars(&ex[base + j], &inc[j]) {
            assert(!words_match(exw[exw.len() - k + j], incw[j as int]));
            return false;
        }
        j = j + 1;
    }
    true
}

fn trimmed_words(ws: &Vec<Vec<char>>) -> (r: Vec<Vec<char>>)
    ensures
        r.len() == ws.len(),
        forall|j: int| 0 <= j < ws.len() ==> #[trigger] r@[j]@ == trim(ws@[j]@, TrimMode::NonAlphanumeric),
{
    let mut r: Vec<Vec<char>> = Vec::new();
    let mut i: usize = 0;
    while i < ws.len()
        invariant
            i <= ws.len(),
            r.len() == i,
            forall|j: int| 0 <= j < i ==> #[trigger] r@[j]@ == trim(ws@[j]@, TrimMode::NonAlphanumeric),
        decreases ws.len() - i,
    {
        r.push(trim_chars(&ws[i], TrimMode::NonAlphanumeric));
        i = i + 1;
    }
    r
}

/// Appends the characters of `v` to `s`.
pub fn push_chars(s: &mut String, v: &Vec<char>)
    ensures
        final(s)@ == old(s)@ + v@,
{
    let mut i: usize = 0;
    while i < v.len()
        invariant
            i <= v.len(),
            s@ == old(s)@ + v@.take(i as int),
        decreases v.len() - i,
    {
        s.push(v[i]);
        i = i + 1;
        assert(v@.take(i as int) == v@.take((i - 1) as int).push(v@[i - 1]));
    }
    assert(v@.take(v.len() as int) == v@);
}

/// Appends the new words of a transcription chunk to the running transcript, dropping
/// the words at the start of `incoming` that repeat the end of `existing`. Returns
/// whether anything was appended.
pub fn append_transcript(existing: &mut String, incoming: &str) -> (appended: bool)
    ensures
        match merged_transcript(old(existing)@, incoming@) {
            None => !appended && final(existing)@ == old(existing)@,
            Some(t) => appended && final(existing)@ == t,
        },
{
    let inc_chars = to_chars(incoming);
    let inc_words = split_words(&inc_chars);
    if inc_words.len() == 0 {
        return false;
    }
    let ex_chars = to_chars(existing.as_str());
    let ex_words = split_words(&ex_chars);
    let ghost exw = views(ex_words@);
    let ghost incw = views(inc_words@);
    let ex_keys = trimmed_words(&ex_words);
    let inc_keys = trimmed_words(&inc_words);
    assert forall|j: int| 0 <= j < ex_keys.len() implies #[trigger] ex_keys@[j]@ == trim(
        exw[j],
        TrimMode::NonAlphanumeric,
    ) by {
        assert(exw[j] == ex_words@[j]@);
    }
    assert forall|j: int| 0 <= j < inc_keys.len() implies #[trigger] inc_keys@[j]@ == trim(
        incw[j],
        TrimMode::NonAlphanumeric,
    ) by {
        assert(incw[j] == inc_words@[j]@);
    }
    let max = if ex_words.len() < inc_words.len() {
        ex_words.len()
    } else {
        inc_words.len()
    };
    let mut size = max;
    while size > 0 && !overlap_at(&ex_keys, &inc_keys, size, Ghost(exw), Ghost(incw))
        invariant
            size <= max,
            max <= ex_keys.len(),
            max <= inc_keys.len(),
            ex_keys.len() == exw.len(),
            inc_keys.len() == incw.len(),
            forall|j: int| 0 <= j < ex_keys.len() ==> #[trigger] ex_keys@[j]@ == trim(exw[j], TrimMode::NonAlphanumeric),
            forall|j: int| 0 <= j < inc_keys.len() ==> #[trigger] inc_keys@[j]@ == trim(incw[j], TrimMode::NonAlphanumeric),
            forall|s: int| size < s <= max ==> !overlaps(exw, incw, s),
        decreases size,
    {
        size = size - 1;
    }
    proof {
        lemma_longest_overlap(exw, incw, max as int, size as int);
    }
    if size == inc_words.len() {
        return false;
    }
    let mut rest: Vec<Vec<char>> = Vec::new();
    let mut i = size;
    while i < inc_words.len()
        invariant
            size <= i <= inc_words.len(),
            incw == views(inc_words@),
            views(rest@) == incw.subrange(size as int, i as int),
        decreases inc_words.len() - i,
    {
        let ghost before = views(rest@);
        let w = inc_words[i].clone();
        assert(w@ == incw[i as int]);
        rest.push(w);
        assert(views(rest@) =~= before.push(w@));
        assert(views(rest@) =~= incw.subrange(size as int, i + 1));
        i = i + 1;
    }
    assert(incw.subrange(size as int, inc_words.len() as int) =~= incw.skip(size as int));
    let mut sep: Vec<char> = Vec::new();
    sep.push(' ');
    assert(sep@ =~= space());
    let suffix = join_chars(&rest, &sep);
    let trimmed = trim_chars(&ex_chars, TrimMode::Whitespace);
    if trimmed.len() > 0 {
        existing.push(' ');
    }
    push_chars(existing, &suffix);
    true
}

proof fn lemma_longest_overlap_sound(ex: Seq<Seq<char>>, inc: Seq<Seq<char>>, m: int)
    ensures
        0 <= longest_overlap(ex, inc, m),
        m >= 0 ==> longest_overlap(ex, inc, m) <= m,
        longest_overlap(ex, inc, m) == 0 || overlaps(ex, inc, longest_overlap(ex, inc, m)),
    decreases m,
{
    if m > 0 && !overlaps(ex, inc, m) {
        lemma_longest_overlap_sound(ex, inc, m - 1);
    }
}

/// The words of a merged transcript are those of the old transcript followed by the new
/// words of the chunk.
pub proof fn lemma_merged_words(existing: Seq<char>, incoming: Seq<char>)
    requires
        merged_transcript(existing, incoming) is Some,
    ensures
        ({
            let inc = split_ws(incoming);
            let ex = split_ws(existing);
            let o = longest_overlap(ex, inc, min(ex.len() as int, inc.len() as int));
            &&& 0 <= o < inc.len()
            &&& o == 0 || overlaps(ex, inc, o)
            &&& split_ws(merged_transcript(existing, incoming)->0) == ex + inc.skip(o)
        }),
{
    let inc = split_ws(incoming);
    let ex = split_ws(existing);
    let m = min(ex.len() as int, inc.len() as int);
    let o = longest_overlap(ex, inc, m);
    lemma_longest_overlap_sound(ex, inc, m);
    let rest = inc.skip(o);
    crate::text::lemma_split_ws_are_words(incoming);
    assert forall|i: int| 0 <= i < rest.len() implies crate::text::is_word(#[trigger] rest[i]) by {
        assert(rest[i] == inc[i + o]);
    }
    crate::text::lemma_split_join(rest);
    let j = join(rest, space());
    if trim_ws(existing).len() > 0 {
        let x = existing + space();
        assert(x.drop_last() =~= existing);
        assert(crate::text::is_ws(' '));
        assert(split_ws(x) == ex);
        crate::text::lemma_split_ws_concat(x, j);
        assert(merged_transcript(existing, incoming)->0 =~= x + j);
    } else {
        crate::text::lemma_blank_has_no_words(existing);
        crate::text::lemma_split_ws_concat(existing, j);
        assert(merged_transcript(existing, incoming)->0 =~= existing + Seq::<char>::empty() + j);
        assert(existing + Seq::<char>::empty() + j =~= existing + j);
        assert(ex + rest =~= rest);
    }
}

/// A chunk that was just appended is dropped when it arrives again: appending the same
/// words twice changes the transcript once.
pub proof fn lemma_repeated_chunk_dropped(existing: Seq<char>, incoming: Seq<char>)
    requires
        merged_transcript(existing, incoming) is Some,
    ensures
        merged_transcript(merged_transcript(existing, incoming)->0, incoming) is None,
{
    let inc = split_ws(incoming);
    let ex = split_ws(existing);
    let o = longest_overlap(ex, inc, min(ex.len() as int, inc.len() as int));
    lemma_merged_words(existing, incoming);
    let t2 = merged_transcript(existing, incoming)->0;
    let ex2 = split_ws(t2);
    assert(ex2 == ex + inc.skip(o));
    assert(ex2.len() >= inc.len());
    assert(overlaps(ex2, inc, inc.len() as int)) by {
        assert forall|j: int| 0 <= j < inc.len() implies #[trigger] words_match(
            ex2[ex2.len() - inc.len() + j],
            inc[j],
        ) by {
            if j < o {
                assert(ex2[ex2.len() - inc.len() + j] == ex[ex.len() - o + j]);
                assert(words_match(ex[ex.len() - o + j], inc[j]));
            } else {
                assert(ex2[ex2.len() - inc.len() + j] == inc[j]);
            }
        }
    }
    assert(min(ex2.len() as int, inc.len() as int) == inc.len());
}

// ---------------------------------------------------------------------------
// The running transcript
// ---------------------------------------------------------------------------

/// The largest size, in bytes of UTF-8, that the running transcript keeps.
pub const TRANSCRIPT_CAP_BYTES: u128 = 12000;

/// The number of bytes of the UTF-8 form of `s`.
pub open spec fn byte_len(s: Seq<char>) -> nat {
    encode_utf8(s).len()
}

/// `t` cut from the front at the first character boundary that leaves at most 12000
/// bytes: whole characters are dropped from the front until the rest fits.
pub open spec fn capped(t: Seq<char>) -> Seq<char>
    decreases t.len(),
{
    if byte_len(t) <= TRANSCRIPT_CAP_BYTES || t.len() == 0 {
        t
    } else {
        capped(t.drop_first())
    }
}

pub proof fn lemma_byte_len_step(t: Seq<char>)
    requires
        t.len() > 0,
    ensures
        byte_len(t) == encode_scalar(t[0] as u32).len() + byte_len(t.drop_first()),
        1 <= encode_scalar(t[0] as u32).len() <= 4,
{
    vstd::utf8::char_is_scalar(t[0]);
}

proof fn lemma_encode_concat(a: Seq<char>, b: Seq<char>)
    ensures
        encode_utf8(a + b) == encode_utf8(a) + encode_utf8(b),
    decreases a.len(),
{
    if a.len() == 0 {
        assert(a + b =~= b);
    } else {
        lemma_encode_concat(a.drop_first(), b);
        assert((a + b).drop_first() =~= a.drop_first() + b);
        assert((a + b)[0] == a[0]);
    }
}

/// The capped transcript is at most 12000 bytes long, is an ending of the uncapped one,
/// and drops no more than it must: one more character from the front would not fit.
pub proof fn lemma_capped_fits(t: Seq<char>)
    ensures
        byte_len(capped(t)) <= TRANSCRIPT_CAP_BYTES,
        capped(t).len() <= t.len(),
        capped(t) == t.skip(t.len() - capped(t).len()),
        capped(t).len() < t.len() ==> byte_len(t.skip(t.len() - capped(t).len() - 1))
            > TRANSCRIPT_CAP_BYTES,
    decreases t.len(),
{
    if byte_len(t) <= TRANSCRIPT_CAP_BYTES || t.len() == 0 {
        assert(t.skip(0) =~= t);
        if t.len() == 0 {
            assert(byte_len(t) == 0);
        }
    } else {
        let d = t.drop_first();
        lemma_capped_fits(d);
        let c = capped(d);
        assert(d.skip(d.len() - c.len()) =~= t.skip(t.len() - c.len()));
        if c.len() == d.len() {
            assert(t.skip(t.len() - c.len() - 1) =~= t);
        } else {
            assert(d.skip(d.len() - c.len() - 1) =~= t.skip(t.len() - c.len() - 1));
        }
    }
}

/// After a transcription is taken in, the running transcript is at most 12000 bytes long,
/// and when words were appended it is published as it stands.
pub proof fn lemma_ingest_keeps_cap(
    raw: Seq<char>,
    published: Seq<char>,
    text: Seq<char>,
    config: CleanConfig,
)
    requires
        byte_len(raw) <= TRANSCRIPT_CAP_BYTES,
    ensures
        ({
            let (r, p, o) = ingested(raw, published, text, config);
            &&& byte_len(r) <= TRANSCRIPT_CAP_BYTES
            &&& o.appended ==> p == r
        }),
{
    let c = cleaned(text, config);
    if crate::text::trim_ws(c).len() != 0 {
        let reset = new_topic(published, c);
        let raw0: Seq<char> = if reset { seq![] } else { raw };
        if merged_transcript(raw0, c) is Some {
            lemma_capped_fits(merged_transcript(raw0, c)->0);
        } else {
            if reset {
                assert(encode_utf8(Seq::<char>::empty()).len() == 0);
            }
        }
    }
}

pub(crate) fn utf8_width(c: char) -> (w: u128)
    ensures
        w == encode_scalar(c as u32).len(),
        1 <= w <= 4,
{
    let x = c as u32;
    if x <= 0x7f {
        1
    } else if x <= 0x7ff {
        2
    } else if x <= 0xffff {
        proof {
            vstd::utf8::char_is_scalar(c);
        }
        3
    } else {
        4
    }
}

/// The number of bytes of the UTF-8 form of `v`.
fn utf8_len(v: &Vec<char>) -> (n: u128)
    ensures
        n == byte_len(v@),
{
    let mut n: u128 = 0;
    let mut i: usize = 0;
    while i < v.len()
        invariant
            i <= v.len(),
            n == byte_len(v@.take(i as int)),
            n <= 4 * i,
        decreases v.len() - i,
    {
        let w = utf8_width(v[i]);
        proof {
            lemma_encode_concat(v@.take(i as int), seq![v@[i as int]]);
            assert(v@.take(i + 1) =~= v@.take(i as int) + seq![v@[i as int]]);
            reveal_with_fuel(encode_utf8, 2);
            assert(seq![v@[i as int]].drop_first() =~= Seq::<char>::empty());
        }
        n = n + w;
        i = i + 1;
    }
    assert(v@.take(v.len() as int) =~= v@);
    n
}

/// `v` capped to its last 12000 bytes at a character boundary; `n` is its length in bytes.
fn cap_front(v: &Vec<char>, n: u128) -> (r: Vec<char>)
    requires
        n == byte_len(v@),
    ensures
        r@ == capped(v@),
{
    let mut left = n;
    let mut i: usize = 0;
    assert(v@.skip(0) =~= v@);
    while left > TRANSCRIPT_CAP_BYTES && i < v.len()
        invariant
            i <= v.len(),
            left == byte_len(v@.skip(i as int)),
            capped(v@) == capped(v@.skip(i as int)),
        decreases v.len() - i,
    {
        let w = utf8_width(v[i]);
        proof {
            let rest = v@.skip(i as int);
            lemma_byte_len_step(rest);
            assert(rest[0] == v@[i as int]);
            assert(rest.drop_first() =~= v@.skip(i + 1));
        }
        left = left - w;
        i = i + 1;
    }
    let t = crate::text::slice_chars(v, i, v.len());
    assert(t@ =~= v@.skip(i as int));
    t
}

/// What one transcription did to the pipeline state.
#[derive(Clone, Copy, Debug, PartialEq, Eq, Structural)]
pub struct IngestOutcome {
    /// The utterance started a new topic, and the transcripts were cleared first.
    pub topic_reset: bool,
    /// New words were appended to the running transcript.
    pub appended: bool,
    /// New words were appended and the cleaned transcription ends a sentence.
    pub ends_sentence: bool,
}

/// The transcripts kept between transcriptions.
#[derive(Debug)]
pub struct PipelineState {
    /// Every appended word since the last topic change, capped to its last 12000 bytes.
    pub raw_transcript: String,
    /// The transcript last published to the phone and sent to the model.
    pub clean_transcript: String,
    /// How each transcription is cleaned.
    pub clean_config: CleanConfig,
}

/// Whether a text ends a sentence: its last character is `.`, `?` or `!`.
pub open spec fn ends_with_sentence_end(t: Seq<char>) -> bool {
    t.len() > 0 && crate::transcript::is_sentence_end(t.last())
}

/// The transcripts and outcome after one transcription `text` reaches a state holding
/// `raw` and `published`, cleaned with `config`: a blank cleaned text changes nothing; a
/// new topic clears both transcripts; new words are appended to the raw transcript, which
/// is capped to its last 12000 bytes at a character boundary and then published, and the
/// outcome tells whether the cleaned transcription ends a sentence.
pub open spec fn ingested(
    raw: Seq<char>,
    published: Seq<char>,
    text: Seq<char>,
    config: CleanConfig,
) -> (Seq<char>, Seq<char>, IngestOutcome) {
    let c = cleaned(text, config);
    if crate::text::trim_ws(c).len() == 0 {
        (raw, published, IngestOutcome { topic_reset: false, appended: false, ends_sentence: false })
    } else {
        let reset = new_topic(published, c);
        let raw0 = if reset { seq![] } else { raw };
        let pub0 = if reset { seq![] } else { published };
        match merged_transcript(raw0, c) {
            None => (raw0, pub0, IngestOutcome { topic_reset: reset, appended: false, ends_sentence: false }),
            Some(t) => {
                let kept = capped(t);
                (kept, kept, IngestOutcome {
                    topic_reset: reset,
                    appended: true,
                    ends_sentence: ends_with_sentence_end(crate::text::trim_ws(c)),
                })
            },
        }
    }
}

/// A transcription starts over exactly when its cleaned text, taken as the new utterance,
/// starts a new topic after the published transcript, taken as what came before; and a
/// short follow-up (at most eight words, refining the request or pointing back with a
/// pronoun) after a non-blank published transcript never starts over, so what it brings
/// is merged onto the running transcript.
pub proof fn lemma_ingest_resets_on_new_topic(
    raw: Seq<char>,
    published: Seq<char>,
    text: Seq<char>,
    config: CleanConfig,
)
    ensures
        ({
            let c = cleaned(text, config);
            let (r, p, o) = ingested(raw, published, text, config);
            &&& crate::text::trim_ws(c).len() > 0 ==> o.topic_reset == new_topic(published, c)
            &&& crate::text::trim_ws(c).len() == 0 ==> !o.topic_reset && r == raw && p == published
            &&& (crate::text::trim_ws(published).len() > 0 && split_ws(c).len() <= 8 && (
            crate::topic::has_refinement_phrase(crate::text::str_to_lowercase(c))
                || crate::topic::has_pronoun_reference(c))) ==> {
                &&& !o.topic_reset
                &&& o.appended == (crate::text::trim_ws(c).len() > 0 && merged_transcript(raw, c) is Some)
                &&& o.appended ==> r == capped(merged_transcript(raw, c)->0)
            }
        }),
{
    let c = cleaned(text, config);
    if crate::text::trim_ws(published).len() > 0 && split_ws(c).len() <= 8 && (
    crate::topic::has_refinement_phrase(crate::text::str_to_lowercase(c))
        || crate::topic::has_pronoun_reference(c)) {
        assert(crate::topic::is_continuation(
            published,
            c,
            crate::topic::shared_terms(published, c),
            crate::topic::terms(c).len(),
        ));
        crate::topic::lemma_continuation_keeps_topic(published, c);
    }
}

/// `a` is an ending of `b`.
pub open spec fn is_suffix(a: Seq<char>, b: Seq<char>) -> bool {
    a.len() <= b.len() && a == b.skip(b.len() - a.len())
}

/// The raw transcript, the published transcript, and everything appended since the last
/// clear or change of topic, after a run of events from empty transcripts: `None` clears
/// the transcripts, `Some(text)` takes a transcription in.
pub open spec fn replay(events: Seq<Option<Seq<char>>>, config: CleanConfig) -> (Seq<char>, Seq<char>, Seq<char>)
    decreases events.len(),
{
    if events.len() == 0 {
        (seq![], seq![], seq![])
    } else {
        let (raw, published, acc) = replay(events.drop_last(), config);
        match events.last() {
            None => (seq![], seq![], seq![]),
            Some(text) => {
                let (r, p, o) = ingested(raw, published, text, config);
                let raw0: Seq<char> = if o.topic_reset { seq![] } else { raw };
                let acc0: Seq<char> = if o.topic_reset { seq![] } else { acc };
                let added = if o.appended {
                    merged_transcript(raw0, cleaned(text, config))->0.skip(raw0.len() as int)
                } else {
                    seq![]
                };
                (r, p, acc0 + added)
            },
        }
    }
}

proof fn lemma_suffix_trans(a: Seq<char>, b: Seq<char>, c: Seq<char>)
    requires
        is_suffix(a, b),
        is_suffix(b, c),
    ensures
        is_suffix(a, c),
{
    assert(c.skip(c.len() - b.len()).skip(b.len() - a.len()) =~= c.skip(c.len() - a.len()));
}

/// Through any run of transcriptions and clears, the published transcript is the raw one,
/// at most 12000 bytes long, and an ending of everything appended since the last clear or
/// change of topic.
pub proof fn lemma_published_transcript_bounded(events: Seq<Option<Seq<char>>>, config: CleanConfig)
    ensures
        ({
            let (raw, published, acc) = replay(events, config);
            &&& published == raw
            &&& byte_len(published) <= TRANSCRIPT_CAP_BYTES
            &&& is_suffix(published, acc)
        }),
    decreases events.len(),
{
    if events.len() == 0 {
        assert(byte_len(Seq::<char>::empty()) == 0);
        assert(Seq::<char>::empty().skip(0) =~= Seq::<char>::empty());
    } else {
        lemma_published_transcript_bounded(events.drop_last(), config);
        let (raw, published, acc) = replay(events.drop_last(), config);
        match events.last() {
            None => {
                assert(byte_len(Seq::<char>::empty()) == 0);
                assert(Seq::<char>::empty().skip(0) =~= Seq::<char>::empty());
            },
            Some(text) => {
                lemma_ingest_keeps_cap(raw, published, text, config);
                let (r, p, o) = ingested(raw, published, text, config);
                let c = cleaned(text, config);
                let raw0: Seq<char> = if o.topic_reset { seq![] } else { raw };
                let acc0: Seq<char> = if o.topic_reset { seq![] } else { acc };
                assert(is_suffix(raw0, acc0)) by {
                    if o.topic_reset {
                        assert(Seq::<char>::empty().skip(0) =~= Seq::<char>::empty());
                    }
                }
                if o.appended {
                    let t = merged_transcript(raw0, c)->0;
                    let added = t.skip(raw0.len() as int);
                    assert(t == raw0 + added) by {
                        assert(t.take(raw0.len() as int) =~= raw0);
                        assert(t =~= t.take(raw0.len() as int) + added);
                    }
                    let acc2 = acc0 + added;
                    assert(is_suffix(t, acc2)) by {
                        assert(acc2.skip(acc2.len() - t.len()) =~= acc0.skip(acc0.len() - raw0.len()) + added);
                    }
                    lemma_capped_fits(t);
                    assert(is_suffix(capped(t), t));
                    lemma_suffix_trans(capped(t), t, acc2);
                    assert(replay(events, config) == (capped(t), capped(t), acc2));
                } else {
                    assert(acc0 + Seq::<char>::empty() =~= acc0);
                    assert(replay(events, config) == (r, p, acc0));
                    assert(r == raw0);
                }
            },
        }
    }
}

impl PipelineState {
    /// Empty transcripts; every clean-up stage on, fillers removed only when
    /// `filler_filter` is set.
    pub fn new(filler_filter: bool) -> (s: Self)
        ensures
            s.raw_transcript@ == Seq::<char>::empty(),
            s.clean_transcript@ == Seq::<char>::empty(),
            s.clean_config.remove_fillers == filler_filter,
            s.clean_config.collapse_repeats,
            s.clean_config.remove_false_starts,
            s.clean_config.remove_incomplete_fragments,
            s.clean_config.custom_fillers@.len() == 0,
    {
        PipelineState {
            raw_transcript: String::new(),
            clean_transcript: String::new(),
            clean_config: CleanConfig {
                remove_fillers: filler_filter,
                collapse_repeats: true,
                remove_false_starts: true,
                remove_incomplete_fragments: true,
                custom_fillers: Vec::new(),
            },
        }
    }

    /// Takes one transcription into the running transcript: cleans it, starts a new topic
    /// when it changes the subject, appends its new words, caps the transcript to its last
    /// 12000 bytes and publishes it.
    pub fn ingest(&mut self, text: &str) -> (o: IngestOutcome)
        ensures
            (final(self).raw_transcript@, final(self).clean_transcript@, o) == ingested(
                old(self).raw_transcript@,
                old(self).clean_transcript@,
                text@,
                old(self).clean_config,
            ),
            final(self).clean_config == old(self).clean_config,
    {
        let c = clean(text, &self.clean_config);
        let cv = crate::text::to_chars(c.as_str());
        let tv = crate::text::trim_chars(&cv, TrimMode::Whitespace);
        if tv.len() == 0 {
            return IngestOutcome { topic_reset: false, appended: false, ends_sentence: false };
        }
        let reset = is_new_topic(self.clean_transcript.as_str(), c.as_str());
        if reset {
            self.raw_transcript = String::new();
            self.clean_transcript = String::new();
        }
        let appended = append_transcript(&mut self.raw_transcript, c.as_str());
        if !appended {
            return IngestOutcome { topic_reset: reset, appended: false, ends_sentence: false };
        }
        let rv = crate::text::to_chars(self.raw_transcript.as_str());
        let n = utf8_len(&rv);
        let kept = cap_front(&rv, n);
        let last = tv[tv.len() - 1];
        let ends = last == '.' || last == '?' || last == '!';
        self.raw_transcript = from_chars(&kept);
        self.clean_transcript = from_chars(&kept);
        IngestOutcome { topic_reset: reset, appended: true, ends_sentence: ends }
    }

    /// Empties both transcripts.
    pub fn clear(&mut self)
        ensures
            final(self).raw_transcript@ == Seq::<char>::empty(),
            final(self).clean_transcript@ == Seq::<char>::empty(),
            final(self).clean_config == old(self).clean_config,
    {
        self.raw_transcript = String::new();
        self.clean_transcript = String::new();
    }

    /// Whether there is a published transcript to answer.
    pub fn has_transcript(&self) -> (b: bool)
        ensures
            b == (crate::text::trim_ws(self.clean_transcript@).len() > 0),
    {
        let v = crate::text::to_chars(self.clean_transcript.as_str());
        crate::text::trim_chars(&v, TrimMode::Whitespace).len() > 0
    }
}

// ---------------------------------------------------------------------------
// Transcriptions arrive out of order and are taken in recording order
// ---------------------------------------------------------------------------

/// The sequence number after `n`, staying at the largest one.
pub open spec fn next_seq(n: u64) -> u64 {
    if n == u64::MAX {
        n
    } else {
        (n + 1) as u64
    }
}

/// The items released from `pending` starting at `next`: the item for `next`, then the
/// one for the number after it, and so on until a number has none; with the buffer and
/// the next expected number that remain.
pub open spec fn release_run<T>(pending: Map<u64, T>, next: u64) -> (Seq<T>, Map<u64, T>, u64)
    decreases pending.dom().len(),
    when pending.dom().finite()
{
    if pending.contains_key(next) {
        let (rest, left, n) = release_run(pending.remove(next), next_seq(next));
        (seq![pending[next]] + rest, left, n)
    } else {
        (seq![], pending, next)
    }
}

/// The sequence number `i` places after `next`.
pub open spec fn seq_after(next: u64, i: int) -> u64 {
    (next + i) as u64
}

/// The items released from `pending` starting at `next` are those filed under `next`,
/// `next + 1`, ... in that order, up to the first number without one, which is the next
/// expected number afterwards; the rest stays pending. (While the numbers stay below the
/// largest `u64`.)
pub proof fn lemma_release_in_order<T>(pending: Map<u64, T>, next: u64)
    requires
        pending.dom().finite(),
        next + pending.dom().len() < u64::MAX,
    ensures
        release_run(pending, next).2 == next + release_run(pending, next).0.len(),
        forall|i: int|
            0 <= i < release_run(pending, next).0.len() ==> #[trigger] pending.contains_key(seq_after(next, i)),
        forall|i: int|
            #![trigger release_run(pending, next).0[i]]
            0 <= i < release_run(pending, next).0.len() ==> release_run(pending, next).0[i]
                == pending[seq_after(next, i)],
        !release_run(pending, next).1.contains_key(release_run(pending, next).2),
        forall|k: u64|
            #[trigger] release_run(pending, next).1.contains_key(k) <==> (pending.contains_key(k)
                && !(next <= k < release_run(pending, next).2)),
        forall|k: u64|
            release_run(pending, next).1.contains_key(k) ==> #[trigger] release_run(
                pending,
                next,
            ).1[k] == pending[k],
    decreases pending.dom().len(),
{
    if pending.contains_key(next) {
        let m2 = pending.remove(next);
        assert(m2.dom().len() == pending.dom().len() - 1) by {
            assert(m2.dom() =~= pending.dom().remove(next));
        }
        lemma_release_in_order(m2, (next + 1) as u64);
        let (rest, left, n) = release_run(m2, (next + 1) as u64);
        let run = seq![pending[next]] + rest;
        assert(release_run(pending, next) == (run, left, n));
        assert(n == next + run.len());
        assert(!left.contains_key(n));
        assert forall|k: u64| left.contains_key(k) implies left[k] == pending[k] by {
            assert(m2.contains_key(k));
        }
        assert forall|k: u64| left.contains_key(k) <==> (pending.contains_key(k) && !(next <= k < n)) by {
            if pending.contains_key(k) && k != next {
                assert(m2.contains_key(k));
            }
        }
        assert forall|i: int| 0 <= i < run.len() implies pending.contains_key((next + i) as u64)
            && #[trigger] run[i] == pending[(next + i) as u64] by {
            if i > 0 {
                assert(run[i] == rest[i - 1]);
                let key = (((next + 1) as u64) + (i - 1)) as u64;
                assert(key == (next + i) as u64);
                assert(m2.contains_key(key));
                assert(m2.dom().contains(key));
                assert(pending.dom().contains(key));
            } else {
                assert((next + i) as u64 == next);
            }
        }
        assert forall|i: int|
            0 <= i < release_run(pending, next).0.len() implies #[trigger] pending.contains_key(
            seq_after(next, i),
        ) by {
            assert(release_run(pending, next).0[i] == run[i]);
        }
    } else {
        assert(release_run(pending, next) == (Seq::<T>::empty(), pending, next));
        assert(release_run(pending, next).0.len() == 0);
    }
}

/// The items among `s`, in order, leaving out the gaps.
pub open spec fn present<T>(s: Seq<Option<T>>) -> Seq<T>
    decreases s.len(),
{
    if s.len() == 0 {
        seq![]
    } else {
        present(s.drop_last()) + match s.last() {
            Some(x) => seq![x],
            None => seq![],
        }
    }
}

proof fn lemma_present_after_gap<T>(s: Seq<Option<T>>, items: Seq<T>)
    requires
        s.len() == items.len() + 1,
        s[0] is None,
        forall|i: int| 0 <= i < items.len() ==> #[trigger] s[i + 1] == Some(items[i]),
    ensures
        present(s) == items,
    decreases items.len(),
{
    if items.len() == 0 {
        assert(s.drop_last().len() == 0);
        assert(present(s.drop_last()) =~= Seq::<T>::empty());
        assert(s.last() == s[0]);
        assert(present(s) =~= items);
    } else {
        let s2 = s.drop_last();
        let i2 = items.drop_last();
        assert forall|i: int| 0 <= i < i2.len() implies #[trigger] s2[i + 1] == Some(i2[i]) by {
            assert(s[i + 1] == Some(items[i]));
        }
        lemma_present_after_gap(s2, i2);
        assert(s.last() == s[items.len() as int]);
        assert(s[(items.len() - 1) + 1] == Some(items[items.len() - 1]));
        assert(present(s) =~= i2 + seq![items.last()]);
        assert(i2 + seq![items.last()] =~= items);
    }
}

/// A chunk given up does not hold back those after it: when chunk `k` is due and given up
/// while the transcriptions of chunks `k + 1`, `k + 2`, ... are waiting, they are all
/// released, in chunk order, up to the first chunk that has not arrived.
pub proof fn lemma_lost_chunk_passed_over<T>(pending: Map<u64, Option<T>>, k: u64, items: Seq<T>)
    requires
        pending.dom().finite(),
        k + pending.dom().len() + 2 < u64::MAX,
        k + 1 + items.len() < u64::MAX,
        forall|i: int|
            0 <= i < items.len() ==> #[trigger] pending.contains_key((k + 1 + i) as u64)
                && pending[(k + 1 + i) as u64] == Some(items[i]),
        !pending.contains_key((k + 1 + items.len()) as u64),
    ensures
        ({
            let (run, left, n) = release_run(pending.insert(k, None), k);
            &&& present(run) == items
            &&& n == k + 1 + items.len()
        }),
{
    let m = pending.insert(k, None);
    assert(m.dom() =~= pending.dom().insert(k));
    assert(m.dom().len() <= pending.dom().len() + 1);
    if items.len() > 0 {
        assert(pending.contains_key((k + 1 + 0) as u64));
    }
    lemma_release_in_order(m, k);
    let (run, left, n) = release_run(m, k);
    let len = items.len() + 1;
    if run.len() < len {
        let key = (k + run.len()) as u64;
        if run.len() == 0 {
            assert(m.contains_key(k));
        } else {
            assert(pending.contains_key((k + 1 + (run.len() - 1)) as u64));
            assert(m.contains_key(key));
        }
        assert(left.contains_key(key));
        assert(false);
    }
    if run.len() > len {
        assert(m.contains_key(seq_after(k, len as int)));
        assert(false);
    }
    assert(run[0] == m[seq_after(k, 0)]);
    assert(seq_after(k, 0) == k);
    assert forall|i: int| 0 <= i < items.len() implies #[trigger] run[i + 1] == Some(items[i]) by {
        assert(run[i + 1] == m[seq_after(k, i + 1)]);
        assert(seq_after(k, i + 1) == (k + 1 + i) as u64);
        assert(pending.contains_key((k + 1 + i) as u64));
    }
    lemma_present_after_gap(run, items);
}

/// Holds finished transcriptions until every earlier chunk has been taken or given up.
pub struct ChunkOrder<T> {
    pending: BTreeMap<u64, Option<T>>,
    next: u64,
}

impl<T> ChunkOrder<T> {
    /// What waits for an earlier chunk, by sequence number: an item, or a gap for a chunk
    /// that was given up.
    pub closed spec fn pending(&self) -> Map<u64, Option<T>> {
        self.pending@
    }

    /// The sequence number of the next chunk to take.
    pub closed spec fn next_expected(&self) -> u64 {
        self.next
    }

    /// An empty buffer that expects chunk `next` first.
    pub fn new(next: u64) -> (o: Self)
        ensures
            o.pending() == Map::<u64, Option<T>>::empty(),
            o.next_expected() == next,
    {
        ChunkOrder { pending: BTreeMap::new(), next }
    }

    /// Files the transcription of chunk `sequence` and hands back, in order, every item
    /// that is now due: the one for the expected number and those that follow it without
    /// a gap, passing over the chunks that were given up.
    pub fn accept(&mut self, sequence: u64, item: T) -> (released: Vec<T>)
        ensures
            ({
                let (run, left, n) = release_run(
                    old(self).pending().insert(sequence, Some(item)),
                    old(self).next_expected(),
                );
                &&& released@ == present(run)
                &&& final(self).pending() == left
                &&& final(self).next_expected() == n
            }),
    {
        self.file(sequence, Some(item))
    }

    /// Gives up chunk `sequence`, whose transcription will never come, and hands back, in
    /// order, every item that is now due.
    pub fn skip(&mut self, sequence: u64) -> (released: Vec<T>)
        ensures
            ({
                let (run, left, n) = release_run(
                    old(self).pending().insert(sequence, None),
                    old(self).next_expected(),
                );
                &&& released@ == present(run)
                &&& final(self).pending() == left
                &&& final(self).next_expected() == n
            }),
    {
        self.file(sequence, None)
    }

    fn file(&mut self, sequence: u64, entry: Option<T>) -> (released: Vec<T>)
        ensures
            ({
                let (run, left, n) = release_run(
                    old(self).pending().insert(sequence, entry),
                    old(self).next_expected(),
                );
                &&& released@ == present(run)
                &&& final(self).pending() == left
                &&& final(self).next_expected() == n
            }),
    {
        broadcast use vstd::std_specs::btree::group_btree_axioms;
        proof {
            broadcast use vstd::laws_cmp::group_laws_cmp;
            assert(vstd::laws_cmp::obeys_cmp::<u64>());
        }
        self.pending.insert(sequence, entry);
        let ghost start = self.pending@;
        let ghost start_next = self.next;
        let ghost mut taken: Seq<Option<T>> = seq![];
        let mut released: Vec<T> = Vec::new();
        loop
            invariant
                vstd::laws_cmp::obeys_cmp::<u64>(),
                self.pending@.dom().finite(),
                start.dom().finite(),
                released@ == present(taken),
                ({
                    let (run, left, n) = release_run(start, start_next);
                    let (rest, left2, n2) = release_run(self.pending@, self.next);
                    run == taken + rest && left == left2 && n == n2
                }),
            ensures
                ({
                    let (run, left, n) = release_run(start, start_next);
                    run == taken && left == self.pending@ && n == self.next
                }),
                released@ == present(taken),
            decreases self.pending@.dom().len(),
        {
            let ghost before = self.pending@;
            let ghost before_next = self.next;
            match self.pending.remove(&self.next) {
                Some(e) => {
                    assert(before.contains_key(before_next));
                    let ghost old_taken = taken;
                    proof {
                        taken = taken.push(e);
                        assert(taken.drop_last() =~= old_taken);
                    }
                    match e {
                        Some(item) => {
                            released.push(item);
                        },
                        None => {},
                    }
                    assert(released@ =~= present(taken));
                    self.next = if self.next == u64::MAX { self.next } else { self.next + 1 };
                    proof {
                        let (rest, _, _) = release_run(before, before_next);
                        let (rest2, _, _) = release_run(self.pending@, self.next);
                        assert(rest == seq![e] + rest2);
                        assert(before.remove(before_next).dom().len() < before.dom().len());
                        assert(old_taken + rest =~= taken + rest2);
                    }
                },
                None => {
                    assert(!before.contains_key(before_next));
                    assert(taken + seq![] =~= taken);
                    break;
                },
            }
        }
        released
    }
}

// ---------------------------------------------------------------------------
// Recording: chunk limits and speech endpoints
// ---------------------------------------------------------------------------

/// Samples per second of the recorded audio.
pub const SAMPLE_RATE: u64 = 16000;

/// Chunk lengths, in samples.
#[derive(Clone, Copy, Debug, PartialEq, Eq, Structural)]
pub struct RecordingLimits {
    /// The preferred chunk length.
    pub preferred_samples: u64,
    /// The shortest chunk that an endpoint may end.
    pub min_samples: u64,
    /// The longest chunk.
    pub max_samples: u64,
    /// The trailing silence after speech that ends a chunk.
    pub endpoint_silence_samples: u64,
}

/// The larger of two integers.
pub open spec fn max(a: int, b: int) -> int {
    if a >= b {
        a
    } else {
        b
    }
}

impl RecordingLimits {
    /// The sample counts for the given timing: each length at least one second, the longest
    /// chunk at least the shortest, and at least 100 ms of endpoint silence.
    pub fn from_timing(t: &crate::config::AudioTiming) -> (l: RecordingLimits)
        requires
            t.endpoint_silence_ms <= u64::MAX / SAMPLE_RATE,
        ensures
            l.preferred_samples == max(t.chunk_seconds as int, 1) * SAMPLE_RATE,
            l.min_samples == max(t.min_utterance_seconds as int, 1) * SAMPLE_RATE,
            l.max_samples == max(
                max(t.max_utterance_seconds as int, t.min_utterance_seconds as int),
                1,
            ) * SAMPLE_RATE,
            l.endpoint_silence_samples == max(t.endpoint_silence_ms as int, 100) * SAMPLE_RATE
                / 1000,
    {
        let chunk = if t.chunk_seconds > 1 { t.chunk_seconds as u64 } else { 1 };
        let min = if t.min_utterance_seconds > 1 { t.min_utterance_seconds as u64 } else { 1 };
        let longest = if t.max_utterance_seconds > t.min_utterance_seconds {
            t.max_utterance_seconds
        } else {
            t.min_utterance_seconds
        };
        let max_s = if longest > 1 { longest as u64 } else { 1 };
        let silence = if t.endpoint_silence_ms > 100 { t.endpoint_silence_ms } else { 100 };
        RecordingLimits {
            preferred_samples: chunk * SAMPLE_RATE,
            min_samples: min * SAMPLE_RATE,
            max_samples: max_s * SAMPLE_RATE,
            endpoint_silence_samples: silence * SAMPLE_RATE / 1000,
        }
    }
}

/// What the recorder has seen of the chunk so far.
#[derive(Clone, Copy, Debug, PartialEq, Eq, Structural)]
pub struct EndpointState {
    /// Some frame was loud enough to be speech.
    pub speech_seen: bool,
    /// Samples of silence since the last speech.
    pub silent_samples: u64,
    /// Samples recorded in this chunk.
    pub recorded_samples: u64,
}

impl EndpointState {
    /// Nothing recorded yet.
    pub fn new() -> (s: Self)
        ensures
            !s.speech_seen,
            s.silent_samples == 0,
            s.recorded_samples == 0,
    {
        EndpointState { speech_seen: false, silent_samples: 0, recorded_samples: 0 }
    }

    /// Whether the chunk may take another frame: it is shorter than the preferred chunk
    /// length and than the longest chunk.
    pub fn wants_more(&self, limits: &RecordingLimits) -> (b: bool)
        ensures
            b == (self.recorded_samples < limits.preferred_samples && self.recorded_samples
                < limits.max_samples),
    {
        self.recorded_samples < limits.preferred_samples && self.recorded_samples
            < limits.max_samples
    }

    /// Records one frame of `samples` samples that was `speech` or silence, and tells
    /// whether the chunk ends here: after speech, once the chunk is at least the shortest
    /// length and the trailing silence is long enough.
    pub fn on_frame(&mut self, limits: &RecordingLimits, speech: bool, samples: u64) -> (endpoint: bool)
        requires
            old(self).recorded_samples + samples <= u64::MAX,
            old(self).silent_samples + samples <= u64::MAX,
        ensures
            final(self).recorded_samples == old(self).recorded_samples + samples,
            speech ==> final(self).speech_seen && final(self).silent_samples == 0 && !endpoint,
            !speech && old(self).speech_seen ==> final(self).speech_seen
                && final(self).silent_samples == old(self).silent_samples + samples && endpoint == (
            final(self).recorded_samples >= limits.min_samples && final(self).silent_samples
                >= limits.endpoint_silence_samples),
            !speech && !old(self).speech_seen ==> !final(self).speech_seen
                && final(self).silent_samples == old(self).silent_samples && !endpoint,
    {
        self.recorded_samples = self.recorded_samples + samples;
        if speech {
            self.speech_seen = true;
            self.silent_samples = 0;
            false
        } else if self.speech_seen {
            self.silent_samples = self.silent_samples + samples;
            self.recorded_samples >= limits.min_samples && self.silent_samples
                >= limits.endpoint_silence_samples
        } else {
            false
        }
    }

    /// Whether the recorder itself ended the chunk: at an endpoint, at the preferred chunk
    /// length, or at the longest length.
    pub fn stop_requested(&self, limits: &RecordingLimits, endpoint: bool) -> (b: bool)
        ensures
            b == (endpoint || self.recorded_samples >= limits.preferred_samples
                || self.recorded_samples >= limits.max_samples),
    {
        endpoint || self.recorded_samples >= limits.preferred_samples || self.recorded_samples
            >= limits.max_samples
    }
}

// ---------------------------------------------------------------------------
// The default output sink in `wpctl status -n`
// ---------------------------------------------------------------------------

/// Whether `c` is an ASCII decimal digit.
pub open spec fn is_digit(c: char) -> bool {
    '0' <= c <= '9'
}

/// The number that a string of decimal digits spells.
pub open spec fn decimal_value(d: Seq<char>) -> int
    decreases d.len(),
{
    if d.len() == 0 {
        0
    } else {
        decimal_value(d.drop_last()) * 10 + (d.last() as u32 - '0' as u32)
    }
}

/// Whether `u32::from_str` accepts `s`: an optional `+`, then one or more decimal digits
/// whose value fits in a `u32`.
pub open spec fn parses_as_u32(s: Seq<char>) -> bool {
    let d = unsigned_digits(s);
    &&& d.len() > 0
    &&& all_digits(d)
    &&& decimal_value(d) <= u32::MAX
}

/// `s` without one leading `+`.
pub open spec fn unsigned_digits(s: Seq<char>) -> Seq<char> {
    if s.len() > 0 && s[0] == '+' {
        s.drop_first()
    } else {
        s
    }
}

/// Whether every character of `d` is a decimal digit.
pub open spec fn all_digits(d: Seq<char>) -> bool {
    forall|i: int| 0 <= i < d.len() ==> is_digit(#[trigger] d[i])
}

proof fn lemma_decimal_value_nonneg(d: Seq<char>)
    requires
        forall|i: int| 0 <= i < d.len() ==> is_digit(#[trigger] d[i]),
    ensures
        decimal_value(d) >= 0,
    decreases d.len(),
{
    if d.len() > 0 {
        lemma_decimal_value_nonneg(d.drop_last());
    }
}

/// Whether `s` is accepted by `u32::from_str`.
pub fn is_u32_text(s: &Vec<char>) -> (b: bool)
    ensures
        b == parses_as_u32(s@),
{
    let start: usize = if s.len() > 0 && s[0] == '+' { 1 } else { 0 };
    let ghost d = unsigned_digits(s@);
    assert(d =~= s@.skip(start as int));
    if start >= s.len() {
        return false;
    }
    let mut value: u64 = 0;
    let mut i = start;
    while i < s.len()
        invariant
            start <= i <= s.len(),
            start < s.len(),
            d == s@.skip(start as int),
            d == unsigned_digits(s@),
            forall|j: int| start <= j < i ==> is_digit(#[trigger] s@[j]),
            value == decimal_value(s@.subrange(start as int, i as int)),
            value <= u32::MAX,
        decreases s.len() - i,
    {
        let c = s[i];
        if !('0' <= c && c <= '9') {
            assert(d[i - start] == c);
            assert(!is_digit(d[i - start]));
            assert(!all_digits(d));
            return false;
        }
        let ghost pre = s@.subrange(start as int, i as int);
        assert(s@.subrange(start as int, i + 1).drop_last() =~= pre);
        let digit = (c as u32 - '0' as u32) as u64;
        value = value * 10 + digit;
        if value > 0xffff_ffff {
            proof {
                if all_digits(d) {
                    lemma_decimal_grows(d, i + 1 - start);
                    assert(d.take(i + 1 - start) =~= s@.subrange(start as int, i + 1));
                }
            }
            return false;
        }
        i = i + 1;
    }
    assert(s@.subrange(start as int, s.len() as int) =~= d);
    assert(all_digits(d)) by {
        assert forall|j: int| 0 <= j < d.len() implies is_digit(#[trigger] d[j]) by {
            assert(d[j] == s@[start + j]);
        }
    }
    true
}

proof fn lemma_decimal_grows(d: Seq<char>, n: int)
    requires
        0 <= n <= d.len(),
        forall|i: int| 0 <= i < d.len() ==> is_digit(#[trigger] d[i]),
    ensures
        decimal_value(d) >= decimal_value(d.take(n)),
    decreases d.len(),
{
    if n < d.len() {
        lemma_decimal_grows(d.drop_last(), n);
        assert(d.drop_last().take(n) =~= d.take(n));
        lemma_decimal_value_nonneg(d.drop_last());
    } else {
        assert(d.take(n) =~= d);
    }
}

/// The text between the first `*` of a line and the next `.`, trimmed; `None` when no
/// `.` follows the first `*`.
pub open spec fn starred_node(l: Seq<char>) -> Option<Seq<char>> {
    match crate::response::first_pos(l, '*') {
        None => None,
        Some(star) => {
            let after = crate::text::trim_start(l.skip(star + 1), TrimMode::Whitespace);
            match crate::response::first_pos(after, '.') {
                None => None,
                Some(dot) => Some(trim_ws(after.take(dot))),
            }
        },
    }
}

/// The scan of `wpctl` lines from line `i` on: lines after the `Sinks:` heading are
/// searched for the starred default; the scan stops at the `Sources:` heading; a starred
/// line without a `.` after the star ends the scan with no answer.
pub open spec fn sink_scan(ls: Seq<Seq<char>>, i: int, in_sinks: bool) -> Option<Seq<char>>
    decreases ls.len() - i,
{
    if i < 0 || i >= ls.len() {
        None
    } else {
        let l = ls[i];
        if crate::text::contains_sub(l, "├─ Sinks:"@) {
            sink_scan(ls, i + 1, true)
        } else if crate::text::contains_sub(l, "├─ Sources:"@) {
            None
        } else if in_sinks && crate::response::first_pos(l, '*') is Some {
            match starred_node(l) {
                None => None,
                Some(id) => if parses_as_u32(id) {
                    Some(id)
                } else {
                    sink_scan(ls, i + 1, in_sinks)
                },
            }
        } else {
            sink_scan(ls, i + 1, in_sinks)
        }
    }
}

/// The node id of the default sink in the output of `wpctl status -n`.
pub open spec fn default_sink(output: Seq<char>) -> Option<Seq<char>> {
    sink_scan(crate::markdown::lines(output), 0, false)
}

fn first_index(v: &Vec<char>, c: char) -> (r: Option<usize>)
    ensures
        match crate::response::first_pos(v@, c) {
            Some(i) => r matches Some(k) && k == i,
            None => r is None,
        },
        r matches Some(i) ==> i < v.len() && v@[i as int] == c,
{
    let mut i: usize = 0;
    while i < v.len()
        invariant
            i <= v.len(),
            forall|j: int| 0 <= j < i ==> v@[j] != c,
        decreases v.len() - i,
    {
        if v[i] == c {
            proof {
                crate::response::lemma_first_pos(v@, c, i as int);
            }
            return Some(i);
        }
        i = i + 1;
    }
    proof {
        crate::response::lemma_first_pos(v@, c, i as int);
    }
    None
}

fn starred_node_chars(l: &Vec<char>) -> (r: Option<Vec<char>>)
    ensures
        match starred_node(l@) {
            Some(t) => r matches Some(w) && w@ == t,
            None => r is None,
        },
{
    match first_index(l, '*') {
        None => None,
        Some(star) => {
            let rest = crate::text::slice_chars(l, star + 1, l.len());
            assert(rest@ =~= l@.skip(star + 1));
            let after = crate::text::trim_start_chars(&rest, TrimMode::Whitespace);
            assert(after@ == crate::text::trim_start(l@.skip(star + 1), TrimMode::Whitespace));
            match first_index(&after, '.') {
                None => {
                    assert(starred_node(l@) is None);
                    None
                },
                Some(dot) => {
                    let head = crate::text::slice_chars(&after, 0, dot);
                    assert(head@ =~= after@.take(dot as int));
                    let t = trim_chars(&head, TrimMode::Whitespace);
                    assert(t@ == trim_ws(after@.take(dot as int)));
                    assert(starred_node(l@) == Some(t@));
                    Some(t)
                },
            }
        },
    }
}

/// The node id of the default output sink in the text that `wpctl status -n` prints: the
/// number between the `*` and the next `.` on the starred line of the `Sinks:` section.
pub fn default_sink_id(output: &str) -> (r: Option<String>)
    ensures
        match default_sink(output@) {
            Some(t) => r matches Some(s) && s@ == t,
            None => r is None,
        },
{
    let v = to_chars(output);
    let ls = crate::markdown::lines_chars(&v);
    let ghost lv = crate::markdown::lines(v@);
    let mut in_sinks = false;
    let mut i: usize = 0;
    while i < ls.len()
        invariant
            i <= ls.len(),
            views(ls@) == lv,
            lv == crate::markdown::lines(output@),
            sink_scan(lv, 0, false) == sink_scan(lv, i as int, in_sinks),
        decreases ls.len() - i,
    {
        let l = &ls[i];
        assert(l@ == lv[i as int]);
        let ghost here = sink_scan(lv, i as int, in_sinks);
        if crate::text::contains_str(l, "├─ Sinks:") {
            assert(here == sink_scan(lv, i + 1, true));
            in_sinks = true;
        } else if crate::text::contains_str(l, "├─ Sources:") {
            assert(here is None);
            return None;
        } else if in_sinks && first_index(l, '*').is_some() {
            match starred_node_chars(l) {
                None => {
                    assert(here is None);
                    return None;
                },
                Some(id) => {
                    if is_u32_text(&id) {
                        assert(here == Some(id@));
                        return Some(from_chars(&id));
                    }
                    assert(here == sink_scan(lv, i + 1, in_sinks));
                },
            }
        } else {
            assert(here == sink_scan(lv, i + 1, in_sinks));
        }
        i = i + 1;
    }
    None
}

} // verus!
