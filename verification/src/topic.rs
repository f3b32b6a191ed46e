//! Topic-change detection between the running transcript and a new utterance.
use vstd::prelude::*;
use vstd::utf8::{encode_scalar, encode_utf8};
use crate::text::{
    contains_str, contains_sub, eq_str, from_chars, lowercase_chars, split_words, split_ws,
    str_to_lowercase, to_chars, trim_chars, trim_ws, views, word_key, word_key_chars, TrimMode,
    contains_word,
};

verus! {

/// Words too common to say anything about a topic.
pub open spec fn is_stop_word(t: Seq<char>) -> bool {
    ||| t == "a"@ ||| t == "an"@ ||| t == "and"@ ||| t == "are"@ ||| t == "can"@
    ||| t == "could"@ ||| t == "do"@ ||| t == "for"@ ||| t == "how"@ ||| t == "i"@
    ||| t == "in"@ ||| t == "is"@ ||| t == "it"@ ||| t == "me"@ ||| t == "of"@
    ||| t == "on"@ ||| t == "please"@ ||| t == "the"@ ||| t == "to"@ ||| t == "we"@
    ||| t == "what"@ ||| t == "with"@ ||| t == "you"@
}

/// A word key counts as a term when its UTF-8 form is longer than one byte and it is
/// not a stop word.
pub open spec fn is_term(t: Seq<char>) -> bool {
    encode_utf8(t).len() > 1 && !is_stop_word(t)
}

/// The terms of `text`: the keys of its words that count as terms.
pub open spec fn terms(text: Seq<char>) -> Set<Seq<char>> {
    Set::new(
        |t: Seq<char>|
            is_term(t) && exists|i: int|
                0 <= i < split_ws(text).len() && #[trigger] word_key(split_ws(text)[i]) == t,
    )
}

/// The number of terms that `current` shares with `previous`.
pub open spec fn shared_terms(previous: Seq<char>, current: Seq<char>) -> nat {
    terms(current).intersect(terms(previous)).len()
}

/// The subject area that a set of terms points to.
#[derive(Clone, Copy, PartialEq, Eq, Structural, Debug)]
pub enum Domain {
    Sql,
    Programming,
    Algorithms,
}

pub open spec fn is_sql_term(t: Seq<char>) -> bool {
    t == "sql"@ || t == "select"@ || t == "join"@ || t == "database"@ || t == "postgres"@ || t
        == "mysql"@
}

pub open spec fn is_programming_term(t: Seq<char>) -> bool {
    t == "python"@ || t == "rust"@ || t == "javascript"@ || t == "typescript"@ || t == "java"@
        || t == "code"@ || t == "function"@
}

pub open spec fn is_algorithm_term(t: Seq<char>) -> bool {
    t == "algorithm"@ || t == "array"@ || t == "list"@ || t == "hashmap"@ || t == "complexity"@
        || t == "twosum"@
}

/// The first of SQL, programming and algorithms that one of the terms belongs to.
pub open spec fn domain_of(ts: Set<Seq<char>>) -> Option<Domain> {
    if exists|t: Seq<char>| ts.contains(t) && is_sql_term(t) {
        Some(Domain::Sql)
    } else if exists|t: Seq<char>| ts.contains(t) && is_programming_term(t) {
        Some(Domain::Programming)
    } else if exists|t: Seq<char>| ts.contains(t) && is_algorithm_term(t) {
        Some(Domain::Algorithms)
    } else {
        None
    }
}

/// Phrases that announce a change of subject.
pub open spec fn has_transition_phrase(text: Seq<char>) -> bool {
    let lower = str_to_lowercase(text);
    ||| contains_sub(lower, "now "@)
    ||| contains_sub(lower, "next "@)
    ||| contains_sub(lower, "instead "@)
    ||| contains_sub(lower, "another question"@)
    ||| contains_sub(lower, "what about "@)
    ||| contains_sub(lower, "switching topics"@)
    ||| contains_sub(lower, "also,"@)
}

/// Phrases that refine the previous request.
pub open spec fn has_refinement_phrase(lower: Seq<char>) -> bool {
    ||| contains_sub(lower, "explain that"@)
    ||| contains_sub(lower, "explain this"@)
    ||| contains_sub(lower, "make it"@)
    ||| contains_sub(lower, "use "@)
    ||| contains_sub(lower, "show me"@)
    ||| contains_sub(lower, "what is the time complexity"@)
    ||| contains_sub(lower, "can you clarify"@)
}

pub open spec fn is_pronoun(w: Seq<char>) -> bool {
    w == "that"@ || w == "this"@ || w == "it"@ || w == "them"@ || w == "those"@
}

/// Whether some word of `current`, lower-cased, is a pronoun that points back.
pub open spec fn has_pronoun_reference(current: Seq<char>) -> bool {
    exists|i: int|
        0 <= i < split_ws(current).len() && is_pronoun(
            #[trigger] str_to_lowercase(split_ws(current)[i]),
        )
}

/// `current` continues `previous` when `previous` is not blank and either at least a
/// quarter of `current`'s `total` terms are `shared` with it, or `current` is at most
/// eight words long and refines or points back to what came before.
pub open spec fn is_continuation(previous: Seq<char>, current: Seq<char>, shared: nat, total: nat) -> bool {
    trim_ws(previous).len() > 0 && (4 * shared >= total || (split_ws(current).len() <= 8 && (
    has_refinement_phrase(str_to_lowercase(current)) || has_pronoun_reference(current))))
}

/// Whether `current` should start a fresh answer context after `previous`. The share of
/// common terms, `shared / total`, is compared with 0.25 and 0.12 as exact fractions.
pub open spec fn new_topic(previous: Seq<char>, current: Seq<char>) -> bool {
    let p = terms(previous);
    let c = terms(current);
    let shared = shared_terms(previous, current);
    let cont = is_continuation(previous, current, shared, c.len());
    if trim_ws(previous).len() == 0 || c.len() == 0 {
        false
    } else {
        ||| has_transition_phrase(current) && !cont
        ||| (domain_of(p) matches Some(a) && domain_of(c) matches Some(b) && a != b && !cont)
        ||| c.len() >= 4 && 25 * shared < 3 * c.len() && !cont
    }
}

fn is_stop_word_key(t: &Vec<char>) -> (b: bool)
    ensures
        b == is_stop_word(t@),
{
    eq_str(t, "a") || eq_str(t, "an") || eq_str(t, "and") || eq_str(t, "are") || eq_str(t, "can")
        || eq_str(t, "could") || eq_str(t, "do") || eq_str(t, "for") || eq_str(t, "how") || eq_str(
        t,
        "i",
    ) || eq_str(t, "in") || eq_str(t, "is") || eq_str(t, "it") || eq_str(t, "me") || eq_str(
        t,
        "of",
    ) || eq_str(t, "on") || eq_str(t, "please") || eq_str(t, "the") || eq_str(t, "to") || eq_str(
        t,
        "we",
    ) || eq_str(t, "what") || eq_str(t, "with") || eq_str(t, "you")
}

proof fn lemma_encode_len(t: Seq<char>)
    ensures
        encode_utf8(t).len() > 1 <==> (t.len() >= 2 || (t.len() == 1 && t[0] as u32 >= 0x80)),
{
    reveal_with_fuel(encode_utf8, 3);
    if t.len() >= 2 {
        assert(t.drop_first().len() >= 1);
        assert(encode_scalar(t.drop_first()[0] as u32).len() >= 1);
    } else if t.len() == 1 {
        assert(t.drop_first().len() == 0);
    }
}

fn is_term_key(t: &Vec<char>) -> (b: bool)
    ensures
        b == is_term(t@),
{
    proof {
        lemma_encode_len(t@);
    }
    let long = t.len() >= 2 || (t.len() == 1 && t[0] as u32 >= 0x80);
    long && !is_stop_word_key(t)
}

/// Whether `t` is a term among the keys of the first `n` words.
pub open spec fn seen_term(ws: Seq<Seq<char>>, n: int, t: Seq<char>) -> bool {
    is_term(t) && exists|j: int| 0 <= j < n && #[trigger] word_key(ws[j]) == t
}

proof fn lemma_seen_step(ws: Seq<Seq<char>>, n: int, t: Seq<char>)
    requires
        0 <= n < ws.len(),
    ensures
        seen_term(ws, n + 1, t) == (seen_term(ws, n, t) || (is_term(t) && word_key(ws[n]) == t)),
{
    if seen_term(ws, n + 1, t) {
        let j = choose|j: int| 0 <= j < n + 1 && #[trigger] word_key(ws[j]) == t;
        if j < n {
            assert(seen_term(ws, n, t));
        }
    }
    if seen_term(ws, n, t) {
        let j = choose|j: int| 0 <= j < n && #[trigger] word_key(ws[j]) == t;
        assert(0 <= j < n + 1);
    }
    if is_term(t) && word_key(ws[n]) == t {
        assert(0 <= n < n + 1);
    }
}

pub proof fn lemma_push_contains(s: Seq<Seq<char>>, x: Seq<char>, t: Seq<char>)
    ensures
        s.push(x).contains(t) == (s.contains(t) || t == x),
{
    if s.push(x).contains(t) {
        let n = choose|n: int| 0 <= n < s.push(x).len() && s.push(x)[n] == t;
        if n < s.len() {
            assert(s[n] == t);
        }
    }
    if s.contains(t) {
        let n = choose|n: int| 0 <= n < s.len() && s[n] == t;
        assert(s.push(x)[n] == t);
    }
    if t == x {
        assert(s.push(x)[s.len() as int] == t);
    }
}

/// The terms of `text`, each once.
fn term_list(text: &Vec<char>) -> (r: Vec<Vec<char>>)
    ensures
        views(r@).no_duplicates(),
        views(r@).to_set() == terms(text@),
{
    let words = split_words(text);
    let ghost ws = split_ws(text@);
    let mut r: Vec<Vec<char>> = Vec::new();
    let mut i: usize = 0;
    while i < words.len()
        invariant
            i <= words.len(),
            views(words@) == ws,
            ws == split_ws(text@),
            views(r@).no_duplicates(),
            forall|t: Seq<char>| #[trigger] views(r@).contains(t) == seen_term(ws, i as int, t),
        decreases words.len() - i,
    {
        let k = word_key_chars(&words[i]);
        assert(ws[i as int] == words@[i as int]@);
        assert(word_key(ws[i as int]) == k@);
        let ghost before = views(r@);
        let ghost kk = k@;
        if is_term_key(&k) && !contains_word(&r, &k) {
            r.push(k);
            assert(views(r@) =~= before.push(kk));
            proof {
                lemma_push_no_dup(before, kk);
            }
            assert forall|t: Seq<char>| #[trigger]
                views(r@).contains(t) == seen_term(ws, i + 1, t) by {
                lemma_seen_step(ws, i as int, t);
                lemma_push_contains(before, kk, t);
            }
        } else {
            assert forall|t: Seq<char>| #[trigger]
                views(r@).contains(t) == seen_term(ws, i + 1, t) by {
                lemma_seen_step(ws, i as int, t);
            }
        }
        i = i + 1;
    }
    assert(views(r@).to_set() =~= terms(text@)) by {
        assert forall|t: Seq<char>| views(r@).to_set().contains(t) <==> terms(text@).contains(t) by {
            assert(views(r@).to_set().contains(t) == views(r@).contains(t));
            assert(terms(text@).contains(t) == seen_term(ws, ws.len() as int, t));
        }
    }
    r
}

proof fn lemma_push_no_dup(s: Seq<Seq<char>>, x: Seq<char>)
    requires
        s.no_duplicates(),
        !s.contains(x),
    ensures
        s.push(x).no_duplicates(),
{
    assert forall|a: int, b: int|
        0 <= a < s.push(x).len() && 0 <= b < s.push(x).len() && a != b implies s.push(x)[a]
        != s.push(x)[b] by {
        if a == s.len() {
            assert(s[b] == s.push(x)[b]);
        } else if b == s.len() {
            assert(s[a] == s.push(x)[a]);
        }
    }
}

proof fn lemma_term_count(r: Seq<Seq<char>>, ts: Set<Seq<char>>)
    requires
        r.no_duplicates(),
        r.to_set() == ts,
    ensures
        ts.len() == r.len(),
        ts.finite(),
{
    r.unique_seq_to_set();
}

/// The terms of `cur` that also occur in `prev`, each once.
fn common_terms(cur: &Vec<Vec<char>>, prev: &Vec<Vec<char>>) -> (r: Vec<Vec<char>>)
    requires
        views(cur@).no_duplicates(),
    ensures
        views(r@).no_duplicates(),
        views(r@).to_set() == views(cur@).to_set().intersect(views(prev@).to_set()),
{
    let mut r: Vec<Vec<char>> = Vec::new();
    let mut i: usize = 0;
    while i < cur.len()
        invariant
            i <= cur.len(),
            views(cur@).no_duplicates(),
            views(r@).no_duplicates(),
            forall|t: Seq<char>|
                views(r@).contains(t) <==> (views(prev@).contains(t) && exists|j: int|
                    0 <= j < i && #[trigger] views(cur@)[j] == t),
        decreases cur.len() - i,
    {
        assert(views(cur@)[i as int] == cur@[i as int]@);
        if contains_word(prev, &cur[i]) {
            let ghost before = views(r@);
            let w = cur[i].clone();
            r.push(w);
            assert(views(r@) =~= before.push(w@));
            assert forall|t: Seq<char>|
                views(r@).contains(t) <==> (views(prev@).contains(t) && exists|j: int|
                    0 <= j < i + 1 && #[trigger] views(cur@)[j] == t) by {
                if views(r@).contains(t) && t != w@ {
                    let n = choose|n: int| 0 <= n < views(r@).len() && views(r@)[n] == t;
                    assert(before[n] == t);
                }
                if views(prev@).contains(t) && exists|j: int|
                    0 <= j < i + 1 && #[trigger] views(cur@)[j] == t {
                    if t != w@ {
                        let j = choose|j: int| 0 <= j < i + 1 && #[trigger] views(cur@)[j] == t;
                        assert(before.contains(t));
                        let n = choose|n: int| 0 <= n < before.len() && before[n] == t;
                        assert(views(r@)[n] == t);
                    } else {
                        assert(views(r@)[views(r@).len() - 1] == t);
                    }
                }
            }
            assert(views(r@).no_duplicates()) by {
                assert forall|a: int, b: int|
                    0 <= a < views(r@).len() && 0 <= b < views(r@).len() && a != b implies views(
                    r@,
                )[a] != views(r@)[b] by {
                    if a == views(r@).len() - 1 || b == views(r@).len() - 1 {
                        let o = if a == views(r@).len() - 1 { b } else { a };
                        if views(r@)[o] == w@ {
                            assert(before.contains(w@));
                            let j = choose|j: int|
                                0 <= j < i && #[trigger] views(cur@)[j] == w@;
                        }
                    }
                }
            }
        } else {
            assert forall|t: Seq<char>|
                views(r@).contains(t) <==> (views(prev@).contains(t) && exists|j: int|
                    0 <= j < i + 1 && #[trigger] views(cur@)[j] == t) by {
                if views(prev@).contains(t) && exists|j: int|
                    0 <= j < i + 1 && #[trigger] views(cur@)[j] == t {
                    let j = choose|j: int| 0 <= j < i + 1 && #[trigger] views(cur@)[j] == t;
                }
            }
        }
        i = i + 1;
    }
    assert(views(r@).to_set() =~= views(cur@).to_set().intersect(views(prev@).to_set())) by {
        assert forall|t: Seq<char>|
            views(r@).to_set().contains(t) <==> views(cur@).to_set().intersect(
                views(prev@).to_set(),
            ).contains(t) by {
            if views(cur@).contains(t) {
                let j = choose|j: int| 0 <= j < views(cur@).len() && views(cur@)[j] == t;
            }
        }
    }
    r
}

fn is_sql_key(t: &Vec<char>) -> (b: bool)
    ensures
        b == is_sql_term(t@),
{
    eq_str(t, "sql") || eq_str(t, "select") || eq_str(t, "join") || eq_str(t, "database") || eq_str(
        t,
        "postgres",
    ) || eq_str(t, "mysql")
}

fn is_programming_key(t: &Vec<char>) -> (b: bool)
    ensures
        b == is_programming_term(t@),
{
    eq_str(t, "python") || eq_str(t, "rust") || eq_str(t, "javascript") || eq_str(t, "typescript")
        || eq_str(t, "java") || eq_str(t, "code") || eq_str(t, "function")
}

fn is_algorithm_key(t: &Vec<char>) -> (b: bool)
    ensures
        b == is_algorithm_term(t@),
{
    eq_str(t, "algorithm") || eq_str(t, "array") || eq_str(t, "list") || eq_str(t, "hashmap")
        || eq_str(t, "complexity") || eq_str(t, "twosum")
}

/// Which of the three term classes, 0 (SQL), 1 (programming) or 2 (algorithms), `t`
/// belongs to.
pub open spec fn in_class(t: Seq<char>, class: int) -> bool {
    if class == 0 {
        is_sql_term(t)
    } else if class == 1 {
        is_programming_term(t)
    } else {
        is_algorithm_term(t)
    }
}

fn any_in_class(ts: &Vec<Vec<char>>, class: u8) -> (b: bool)
    requires
        class <= 2,
    ensures
        b == exists|t: Seq<char>| views(ts@).to_set().contains(t) && in_class(t, class as int),
{
    let mut i: usize = 0;
    while i < ts.len()
        invariant
            i <= ts.len(),
            class <= 2,
            forall|j: int| 0 <= j < i ==> !in_class(#[trigger] ts@[j]@, class as int),
        decreases ts.len() - i,
    {
        let hit = if class == 0 {
            is_sql_key(&ts[i])
        } else if class == 1 {
            is_programming_key(&ts[i])
        } else {
            is_algorithm_key(&ts[i])
        };
        if hit {
            assert(in_class(ts@[i as int]@, class as int));
            assert(views(ts@)[i as int] == ts@[i as int]@);
            assert(views(ts@).to_set().contains(ts@[i as int]@));
            return true;
        }
        i = i + 1;
    }
    assert forall|t: Seq<char>|
        !(views(ts@).to_set().contains(t) && in_class(t, class as int)) by {
        if views(ts@).to_set().contains(t) {
            let j = choose|j: int| 0 <= j < views(ts@).len() && views(ts@)[j] == t;
            assert(views(ts@)[j] == ts@[j]@);
        }
    }
    false
}

fn domain(ts: &Vec<Vec<char>>) -> (d: Option<Domain>)
    ensures
        d == domain_of(views(ts@).to_set()),
{
    let ghost s = views(ts@).to_set();
    assert((exists|t: Seq<char>| s.contains(t) && is_sql_term(t)) == (exists|t: Seq<char>|
        s.contains(t) && in_class(t, 0)));
    assert((exists|t: Seq<char>| s.contains(t) && is_programming_term(t)) == (exists|
        t: Seq<char>,
    | s.contains(t) && in_class(t, 1)));
    assert((exists|t: Seq<char>| s.contains(t) && is_algorithm_term(t)) == (exists|t: Seq<char>|
        s.contains(t) && in_class(t, 2)));
    if any_in_class(ts, 0) {
        Some(Domain::Sql)
    } else if any_in_class(ts, 1) {
        Some(Domain::Programming)
    } else if any_in_class(ts, 2) {
        Some(Domain::Algorithms)
    } else {
        None
    }
}

fn transition_phrase(text: &Vec<char>) -> (b: bool)
    ensures
        b == has_transition_phrase(text@),
{
    let lower = lowercase_chars(text);
    contains_str(&lower, "now ") || contains_str(&lower, "next ") || contains_str(
        &lower,
        "instead ",
    ) || contains_str(&lower, "another question") || contains_str(&lower, "what about ")
        || contains_str(&lower, "switching topics") || contains_str(&lower, "also,")
}

fn refinement_phrase(lower: &Vec<char>) -> (b: bool)
    ensures
        b == has_refinement_phrase(lower@),
{
    contains_str(lower, "explain that") || contains_str(lower, "explain this") || contains_str(
        lower,
        "make it",
    ) || contains_str(lower, "use ") || contains_str(lower, "show me") || contains_str(
        lower,
        "what is the time complexity",
    ) || contains_str(lower, "can you clarify")
}

fn pronoun_reference(words: &Vec<Vec<char>>, Ghost(current): Ghost<Seq<char>>) -> (b: bool)
    requires
        views(words@) == split_ws(current),
    ensures
        b == has_pronoun_reference(current),
{
    let mut i: usize = 0;
    while i < words.len()
        invariant
            i <= words.len(),
            views(words@) == split_ws(current),
            forall|j: int|
                0 <= j < i ==> !is_pronoun(#[trigger] str_to_lowercase(split_ws(current)[j])),
        decreases words.len() - i,
    {
        let l = lowercase_chars(&words[i]);
        assert(split_ws(current)[i as int] == words@[i as int]@);
        if eq_str(&l, "that") || eq_str(&l, "this") || eq_str(&l, "it") || eq_str(&l, "them")
            || eq_str(&l, "those") {
            return true;
        }
        i = i + 1;
    }
    false
}

fn continuation(
    previous: &Vec<char>,
    current: &Vec<char>,
    shared: usize,
    total: usize,
) -> (b: bool)
    ensures
        b == is_continuation(previous@, current@, shared as nat, total as nat),
{
    let words = split_words(current);
    let lower = lowercase_chars(current);
    let refinement = refinement_phrase(&lower);
    let pronoun = pronoun_reference(&words, Ghost(current@));
    let trimmed = trim_chars(previous, TrimMode::Whitespace);
    trimmed.len() > 0 && (4 * (shared as u128) >= total as u128 || (words.len() <= 8 && (
    refinement || pronoun)))
}

/// Whether `current` should start a fresh answer context after `previous`: never after a
/// blank transcript or for an utterance without terms; otherwise when, unless `current`
/// continues `previous`, it announces a change of subject, or the two point to different
/// subject areas, or it has four or more terms of which fewer than 12% are shared.
pub fn is_new_topic(previous: &str, current: &str) -> (b: bool)
    ensures
        b == new_topic(previous@, current@),
{
    let pv = to_chars(previous);
    let cv = to_chars(current);
    let pt = trim_chars(&pv, TrimMode::Whitespace);
    if pt.len() == 0 {
        return false;
    }
    let prev_terms = term_list(&pv);
    let cur_terms = term_list(&cv);
    proof {
        lemma_term_count(views(prev_terms@), terms(previous@));
        lemma_term_count(views(cur_terms@), terms(current@));
    }
    if cur_terms.len() == 0 {
        return false;
    }
    let common = common_terms(&cur_terms, &prev_terms);
    proof {
        lemma_term_count(views(common@), terms(current@).intersect(terms(previous@)));
    }
    let shared = common.len();
    let total = cur_terms.len();
    let cont = continuation(&pv, &cv, shared, total);
    if transition_phrase(&cv) && !cont {
        return true;
    }
    let pd = domain(&prev_terms);
    let cd = domain(&cur_terms);
    match (pd, cd) {
        (Some(a), Some(b)) => {
            if a != b && !cont {
                return true;
            }
        },
        _ => {},
    }
    total >= 4 && 25 * (shared as u128) < 3 * (total as u128) && !cont
}

/// After a blank transcript nothing counts as a change of topic.
pub proof fn lemma_blank_history_keeps_topic(previous: Seq<char>, current: Seq<char>)
    requires
        trim_ws(previous).len() == 0,
    ensures
        !new_topic(previous, current),
{
}

/// An utterance without a single term never changes the topic.
pub proof fn lemma_termless_utterance_keeps_topic(previous: Seq<char>, current: Seq<char>)
    requires
        terms(current).len() == 0,
    ensures
        !new_topic(previous, current),
{
}

/// An utterance that shares at least a quarter of its terms with the transcript before
/// it continues that transcript's topic.
pub proof fn lemma_shared_quarter_keeps_topic(previous: Seq<char>, current: Seq<char>)
    requires
        4 * shared_terms(previous, current) >= terms(current).len(),
    ensures
        !new_topic(previous, current),
{
}

/// A switch of subject area starts a new topic: when the terms of the earlier transcript
/// and of the utterance point to different areas (SQL, programming, algorithms, the first
/// that one of the terms belongs to), the transcript is not blank, the utterance has
/// terms, and it does not continue the transcript, the utterance starts a new topic.
pub proof fn lemma_subject_switch_starts_new_topic(previous: Seq<char>, current: Seq<char>)
    requires
        trim_ws(previous).len() > 0,
        terms(current).len() > 0,
        domain_of(terms(previous)) is Some,
        domain_of(terms(current)) is Some,
        domain_of(terms(previous)) != domain_of(terms(current)),
        !is_continuation(
            previous,
            current,
            shared_terms(previous, current),
            terms(current).len(),
        ),
    ensures
        new_topic(previous, current),
{
}

/// An utterance that continues the transcript never starts a new topic.
pub proof fn lemma_continuation_keeps_topic(previous: Seq<char>, current: Seq<char>)
    requires
        is_continuation(previous, current, shared_terms(previous, current), terms(current).len()),
    ensures
        !new_topic(previous, current),
{
}

/// A change of subject that is announced, or a long utterance sharing under 12% of its
/// terms, starts a new topic after a non-blank transcript unless it continues it.
pub proof fn lemma_announced_or_unrelated_starts_new_topic(previous: Seq<char>, current: Seq<char>)
    requires
        trim_ws(previous).len() > 0,
        terms(current).len() > 0,
        !is_continuation(
            previous,
            current,
            shared_terms(previous, current),
            terms(current).len(),
        ),
    ensures
        has_transition_phrase(current) ==> new_topic(previous, current),
        terms(current).len() >= 4 && 25 * shared_terms(previous, current) < 3 * terms(
            current,
        ).len() ==> new_topic(previous, current),
{
}

} // verus!
