//! Transcript clean-up: filler removal, repeat collapsing, false-start and
//! trailing-fragment stripping.
use vstd::prelude::*;
use crate::text::{
    is_word, is_ws, lemma_split_ws_are_words, lemma_split_join, trim_start,
    append_chars, char_is_lowercase, char_to_uppercase, dropped, is_lowercase, is_whitespace,
    lemma_split_ws_words, lemma_trim_end, slice_chars, squeeze_chars, squeeze_ws, to_uppercase,
    trim_chars, trim_end, trim_ws, word_key_chars, TrimMode, eq_chars, eq_str, from_chars, join, join_chars, space, split_words, split_ws, str_to_lowercase,
    to_chars, to_lowercase, views, word_key, word_keys, contains_word,
};

verus! {

/// Which clean-up stages run, and the caller's extra filler words.
#[derive(Clone, Debug)]
pub struct CleanConfig {
    pub remove_fillers: bool,
    pub collapse_repeats: bool,
    pub remove_false_starts: bool,
    pub remove_incomplete_fragments: bool,
    pub custom_fillers: Vec<String>,
}

impl Default for CleanConfig {
    fn default() -> (c: Self)
        ensures
            c.remove_fillers,
            c.collapse_repeats,
            c.remove_false_starts,
            c.remove_incomplete_fragments,
            c.custom_fillers@.len() == 0,
    {
        CleanConfig {
            remove_fillers: true,
            collapse_repeats: true,
            remove_false_starts: true,
            remove_incomplete_fragments: true,
            custom_fillers: Vec::new(),
        }
    }
}

/// The caller's extra fillers, lower-cased.
pub open spec fn custom_keys(custom: Seq<String>) -> Seq<Seq<char>> {
    custom.map_values(|f: String| str_to_lowercase(f@))
}

// ---------------------------------------------------------------------------
// Fillers
// ---------------------------------------------------------------------------

/// The built-in filler words.
pub open spec fn is_base_filler(k: Seq<char>) -> bool {
    ||| k == "uh"@
    ||| k == "um"@
    ||| k == "uhh"@
    ||| k == "umm"@
    ||| k == "er"@
    ||| k == "ah"@
    ||| k == "hmm"@
}

/// Whether a word key is a filler, given the lower-cased extra fillers.
pub open spec fn is_filler(k: Seq<char>, custom: Seq<Seq<char>>) -> bool {
    is_base_filler(k) || custom.contains(k)
}

/// The key of the word after position `i`, if there is one.
pub open spec fn next_key(words: Seq<Seq<char>>, i: int) -> Option<Seq<char>> {
    if i + 1 < words.len() {
        Some(word_key(words[i + 1]))
    } else {
        None
    }
}

/// The key of the word before position `i`, if there is one.
pub open spec fn prev_key(words: Seq<Seq<char>>, i: int) -> Option<Seq<char>> {
    if i >= 1 {
        Some(word_key(words[i - 1]))
    } else {
        None
    }
}

/// "ah" before yes/no/okay/right, and "hmm" before let/well/okay, carry meaning.
pub open spec fn is_meaningful_filler(words: Seq<Seq<char>>, i: int) -> bool {
    let w = word_key(words[i]);
    match next_key(words, i) {
        Some(n) => (w == "ah"@ && (n == "yes"@ || n == "no"@ || n == "okay"@ || n == "right"@))
            || (w == "hmm"@ && (n == "let"@ || n == "well"@ || n == "okay"@)),
        None => false,
    }
}

/// "like" is kept after would/looks/feel/seem and before a/an/the/that/this.
pub open spec fn should_keep_like(words: Seq<Seq<char>>, i: int) -> bool {
    (match prev_key(words, i) {
        Some(p) => p == "would"@ || p == "looks"@ || p == "feel"@ || p == "seem"@,
        None => false,
    }) || (match next_key(words, i) {
        Some(n) => n == "a"@ || n == "an"@ || n == "the"@ || n == "that"@ || n == "this"@,
        None => false,
    })
}

/// `kept` with one trailing comma removed from its last word, if that word ends in one.
pub open spec fn drop_trailing_comma(kept: Seq<Seq<char>>) -> Seq<Seq<char>> {
    if kept.len() > 0 && kept.last().len() > 0 && kept.last().last() == ',' {
        kept.update(kept.len() - 1, kept.last().drop_last())
    } else {
        kept
    }
}

/// The words kept after filler removal has seen the first `n` words: a filler that
/// carries no meaning is dropped together with a comma that ends the word kept before
/// it; an idle "like" is dropped; every other word is kept.
pub open spec fn filler_pass(words: Seq<Seq<char>>, custom: Seq<Seq<char>>, n: int) -> Seq<
    Seq<char>,
>
    decreases n,
{
    if n <= 0 {
        seq![]
    } else {
        let prev = filler_pass(words, custom, n - 1);
        let i = n - 1;
        let k = word_key(words[i]);
        if is_filler(k, custom) && !is_meaningful_filler(words, i) {
            drop_trailing_comma(prev)
        } else if k == "like"@ && !should_keep_like(words, i) {
            prev
        } else {
            prev.push(words[i])
        }
    }
}

/// `text` after filler removal, its kept words joined by single spaces.
pub open spec fn without_fillers(text: Seq<char>, custom: Seq<Seq<char>>) -> Seq<char> {
    let words = split_ws(text);
    join(filler_pass(words, custom, words.len() as int), space())
}

fn is_base_filler_key(k: &Vec<char>) -> (b: bool)
    ensures
        b == is_base_filler(k@),
{
    eq_str(k, "uh") || eq_str(k, "um") || eq_str(k, "uhh") || eq_str(k, "umm") || eq_str(k, "er")
        || eq_str(k, "ah") || eq_str(k, "hmm")
}

fn meaningful_at(keys: &Vec<Vec<char>>, Ghost(words): Ghost<Seq<Seq<char>>>, i: usize) -> (b: bool)
    requires
        i < keys.len(),
        keys.len() == words.len(),
        forall|j: int| 0 <= j < words.len() ==> #[trigger] keys@[j]@ == word_key(words[j]),
    ensures
        b == is_meaningful_filler(words, i as int),
{
    if i + 1 >= keys.len() {
        return false;
    }
    let w = &keys[i];
    let n = &keys[i + 1];
    assert(n@ == word_key(words[i + 1]));
    assert(w@ == word_key(words[i as int]));
    (eq_str(w, "ah") && (eq_str(n, "yes") || eq_str(n, "no") || eq_str(n, "okay") || eq_str(
        n,
        "right",
    ))) || (eq_str(w, "hmm") && (eq_str(n, "let") || eq_str(n, "well") || eq_str(n, "okay")))
}

fn keep_like_at(keys: &Vec<Vec<char>>, Ghost(words): Ghost<Seq<Seq<char>>>, i: usize) -> (b: bool)
    requires
        i < keys.len(),
        keys.len() == words.len(),
        forall|j: int| 0 <= j < words.len() ==> #[trigger] keys@[j]@ == word_key(words[j]),
    ensures
        b == should_keep_like(words, i as int),
{
    let before = if i >= 1 {
        let p = &keys[i - 1];
        assert(p@ == word_key(words[i - 1]));
        eq_str(p, "would") || eq_str(p, "looks") || eq_str(p, "feel") || eq_str(p, "seem")
    } else {
        false
    };
    let after = if i + 1 < keys.len() {
        let n = &keys[i + 1];
        assert(n@ == word_key(words[i + 1]));
        eq_str(n, "a") || eq_str(n, "an") || eq_str(n, "the") || eq_str(n, "that") || eq_str(
            n,
            "this",
        )
    } else {
        false
    };
    before || after
}

/// The caller's extra fillers, lower-cased.
fn lowered_fillers(custom: &Vec<String>) -> (r: Vec<Vec<char>>)
    ensures
        views(r@) == custom_keys(custom@),
{
    let mut r: Vec<Vec<char>> = Vec::new();
    let mut i: usize = 0;
    while i < custom.len()
        invariant
            i <= custom.len(),
            views(r@) == custom_keys(custom@.take(i as int)),
        decreases custom.len() - i,
    {
        let ghost before = views(r@);
        let l = to_lowercase(custom[i].as_str());
        let lc = to_chars(l.as_str());
        assert(lc@ == str_to_lowercase(custom@[i as int]@));
        r.push(lc);
        assert(views(r@) =~= before.push(lc@));
        assert(custom_keys(custom@.take(i + 1)) =~= custom_keys(custom@.take(i as int)).push(
            str_to_lowercase(custom@[i as int]@),
        ));
        i = i + 1;
    }
    assert(custom@.take(custom.len() as int) =~= custom@);
    r
}

fn fillers_removed(text: &Vec<char>, custom: &Vec<Vec<char>>) -> (r: Vec<char>)
    ensures
        r@ == without_fillers(text@, views(custom@)),
{
    let words = split_words(text);
    let keys = word_keys(&words);
    let ghost ws = views(words@);
    assert forall|j: int| 0 <= j < ws.len() implies #[trigger] keys@[j]@ == word_key(ws[j]) by {
        assert(ws[j] == words@[j]@);
    }
    let mut kept: Vec<Vec<char>> = Vec::new();
    let mut i: usize = 0;
    while i < words.len()
        invariant
            i <= words.len(),
            ws == views(words@),
            keys.len() == words.len(),
            forall|j: int| 0 <= j < ws.len() ==> #[trigger] keys@[j]@ == word_key(ws[j]),
            views(kept@) == filler_pass(ws, views(custom@), i as int),
        decreases words.len() - i,
    {
        let k = &keys[i];
        assert(k@ == word_key(ws[i as int]));
        let filler = is_base_filler_key(k) || contains_word(custom, k);
        if filler && !meaningful_at(&keys, Ghost(ws), i) {
            if kept.len() > 0 {
                let ghost before = views(kept@);
                let mut last = kept.pop().unwrap();
                assert(views(kept@) =~= before.drop_last());
                if last.len() > 0 && last[last.len() - 1] == ',' {
                    last.pop();
                }
                kept.push(last);
                assert(views(kept@) =~= drop_trailing_comma(before));
            }
        } else if eq_str(k, "like") && !keep_like_at(&keys, Ghost(ws), i) {
        } else {
            let w = words[i].clone();
            kept.push(w);
            assert(views(kept@) =~= filler_pass(ws, views(custom@), i as int).push(ws[i as int]));
        }
        i = i + 1;
    }
    let mut sep: Vec<char> = Vec::new();
    sep.push(' ');
    assert(sep@ =~= space());
    join_chars(&kept, &sep)
}

/// `text` without meaningless fillers (the built-in ones and the caller's), and without
/// an idle "like"; its words are re-joined by single spaces.
pub fn remove_fillers(text: &str, config: &CleanConfig) -> (r: String)
    ensures
        r@ == without_fillers(text@, custom_keys(config.custom_fillers@)),
{
    let custom = lowered_fillers(&config.custom_fillers);
    let v = to_chars(text);
    from_chars(&fillers_removed(&v, &custom))
}

/// Word `i` is one that filler removal drops: a filler that carries no meaning there,
/// or an idle "like".
pub open spec fn is_dropped_word(words: Seq<Seq<char>>, custom: Seq<Seq<char>>, i: int) -> bool {
    let k = word_key(words[i]);
    (is_filler(k, custom) && !is_meaningful_filler(words, i)) || (k == "like"@
        && !should_keep_like(words, i))
}

/// The positions, among the first `n` words, of the words that filler removal keeps.
pub open spec fn filler_origin(words: Seq<Seq<char>>, custom: Seq<Seq<char>>, n: int) -> Seq<int>
    decreases n,
{
    if n <= 0 {
        seq![]
    } else if is_dropped_word(words, custom, n - 1) {
        filler_origin(words, custom, n - 1)
    } else {
        filler_origin(words, custom, n - 1).push(n - 1)
    }
}

/// `kept` is `word` with none, some or all of its trailing commas removed.
pub open spec fn comma_trimmed(word: Seq<char>, kept: Seq<char>) -> bool {
    &&& kept.len() <= word.len()
    &&& kept == word.take(kept.len() as int)
    &&& forall|j: int| kept.len() <= j < word.len() ==> #[trigger] word[j] == ','
}

proof fn lemma_filler_pass_origin(words: Seq<Seq<char>>, custom: Seq<Seq<char>>, n: int)
    requires
        0 <= n <= words.len(),
    ensures
        ({
            let kept = filler_pass(words, custom, n);
            let origin = filler_origin(words, custom, n);
            &&& origin.len() == kept.len()
            &&& forall|k: int|
                0 <= k < origin.len() ==> {
                    &&& 0 <= #[trigger] origin[k] < n
                    &&& !is_dropped_word(words, custom, origin[k])
                    &&& comma_trimmed(words[origin[k]], kept[k])
                }
            &&& forall|k1: int, k2: int|
                0 <= k1 < k2 < origin.len() ==> #[trigger] origin[k1] < #[trigger] origin[k2]
            &&& forall|i: int|
                0 <= i < n && !is_dropped_word(words, custom, i) ==> exists|k: int|
                    0 <= k < origin.len() && #[trigger] origin[k] == i
        }),
    decreases n,
{
    if n > 0 {
        lemma_filler_pass_origin(words, custom, n - 1);
        let prev = filler_pass(words, custom, n - 1);
        let po = filler_origin(words, custom, n - 1);
        let kept = filler_pass(words, custom, n);
        let origin = filler_origin(words, custom, n);
        let i = n - 1;
        let k = word_key(words[i]);
        if is_filler(k, custom) && !is_meaningful_filler(words, i) {
            assert(origin == po);
            if prev.len() > 0 && prev.last().len() > 0 && prev.last().last() == ',' {
                let m = prev.len() - 1;
                let w = words[po[m]];
                let v = prev[m];
                assert(comma_trimmed(w, v));
                let v2 = v.drop_last();
                assert(w[v.len() - 1] == v[v.len() - 1]);
                assert(v2 =~= w.take(v2.len() as int));
                assert forall|j: int| v2.len() <= j < w.len() implies #[trigger] w[j] == ',' by {
                    if j == v2.len() {
                        assert(w[j] == v.last());
                    }
                }
                assert forall|q: int| 0 <= q < origin.len() implies {
                    &&& 0 <= #[trigger] origin[q] < n
                    &&& !is_dropped_word(words, custom, origin[q])
                    &&& comma_trimmed(words[origin[q]], kept[q])
                } by {
                    if q < m {
                        assert(kept[q] == prev[q]);
                    } else {
                        assert(kept[q] == v2);
                    }
                }
            }
        } else if k == "like"@ && !should_keep_like(words, i) {
            assert(origin == po);
        } else {
            assert(!is_dropped_word(words, custom, i));
            assert(origin == po.push(i));
            assert(kept == prev.push(words[i]));
            assert forall|q: int| 0 <= q < origin.len() implies {
                &&& 0 <= #[trigger] origin[q] < n
                &&& !is_dropped_word(words, custom, origin[q])
                &&& comma_trimmed(words[origin[q]], kept[q])
            } by {
                if q < po.len() {
                    assert(kept[q] == prev[q]);
                    assert(origin[q] == po[q]);
                } else {
                    assert(words[i].take(words[i].len() as int) =~= words[i]);
                }
            }
            assert forall|k1: int, k2: int| 0 <= k1 < k2 < origin.len() implies #[trigger] origin[k1]
                < #[trigger] origin[k2] by {
                assert(origin[k1] == po[k1]);
                if k2 < po.len() {
                    assert(origin[k2] == po[k2]);
                }
            }
            assert forall|j: int| 0 <= j < n && !is_dropped_word(words, custom, j) implies exists|
                q: int,
            | 0 <= q < origin.len() && #[trigger] origin[q] == j by {
                if j == i {
                    assert(origin[po.len() as int] == i);
                } else {
                    let q = choose|q: int| 0 <= q < po.len() && #[trigger] po[q] == j;
                    assert(origin[q] == j);
                }
            }
        }
    }
}

/// Filler removal keeps, in their order, exactly the words that are neither a filler
/// carrying no meaning nor an idle "like"; a kept word loses at most trailing commas
/// (those before a dropped filler), and the kept words are joined by single spaces.
pub proof fn lemma_fillers_removed(text: Seq<char>, custom: Seq<Seq<char>>)
    ensures
        ({
            let words = split_ws(text);
            let n = words.len() as int;
            let kept = filler_pass(words, custom, n);
            let origin = filler_origin(words, custom, n);
            &&& without_fillers(text, custom) == join(kept, space())
            &&& origin.len() == kept.len()
            &&& forall|k: int|
                0 <= k < origin.len() ==> {
                    &&& 0 <= #[trigger] origin[k] < n
                    &&& !is_dropped_word(words, custom, origin[k])
                    &&& comma_trimmed(words[origin[k]], kept[k])
                }
            &&& forall|k1: int, k2: int|
                0 <= k1 < k2 < origin.len() ==> #[trigger] origin[k1] < #[trigger] origin[k2]
            &&& forall|i: int|
                0 <= i < n && !is_dropped_word(words, custom, i) ==> exists|k: int|
                    0 <= k < origin.len() && #[trigger] origin[k] == i
        }),
{
    lemma_filler_pass_origin(split_ws(text), custom, split_ws(text).len() as int);
}

// ---------------------------------------------------------------------------
// Repeats
// ---------------------------------------------------------------------------

/// The words kept after repeat collapsing has seen the first `n` words: a word is dropped
/// when its key is non-empty and equals the key of the word kept just before it.
pub open spec fn repeat_pass(words: Seq<Seq<char>>, n: int) -> Seq<Seq<char>>
    decreases n,
{
    if n <= 0 {
        seq![]
    } else {
        let prev = repeat_pass(words, n - 1);
        let w = words[n - 1];
        if prev.len() > 0 && word_key(prev.last()) == word_key(w) && word_key(w).len() > 0 {
            prev
        } else {
            prev.push(w)
        }
    }
}

/// `text` with consecutive repeated words collapsed to one, words re-joined by single spaces.
pub open spec fn without_repeats(text: Seq<char>) -> Seq<char> {
    let words = split_ws(text);
    join(repeat_pass(words, words.len() as int), space())
}

/// Word `i + 1` of `ws` repeats word `i`: both have the same key, and it is not empty.
pub open spec fn repeats_at(ws: Seq<Seq<char>>, i: int) -> bool {
    word_key(ws[i]) == word_key(ws[i + 1]) && word_key(ws[i + 1]).len() > 0
}

/// No word of `ws` repeats the word before it.
pub open spec fn no_adjacent_repeats(ws: Seq<Seq<char>>) -> bool {
    forall|i: int| 0 <= i < ws.len() - 1 ==> !#[trigger] repeats_at(ws, i)
}

proof fn lemma_repeat_pass_shape(words: Seq<Seq<char>>, n: int)
    requires
        0 <= n <= words.len(),
        forall|i: int| 0 <= i < words.len() ==> is_word(#[trigger] words[i]),
    ensures
        no_adjacent_repeats(repeat_pass(words, n)),
        forall|k: int| 0 <= k < repeat_pass(words, n).len() ==> is_word(#[trigger] repeat_pass(words, n)[k]),
    decreases n,
{
    if n > 0 {
        lemma_repeat_pass_shape(words, n - 1);
        let prev = repeat_pass(words, n - 1);
        let w = words[n - 1];
        if !(prev.len() > 0 && word_key(prev.last()) == word_key(w) && word_key(w).len() > 0) {
            let cur = prev.push(w);
            assert forall|i: int| 0 <= i < cur.len() - 1 implies !#[trigger] repeats_at(cur, i) by {
                if i < prev.len() - 1 {
                    assert(repeats_at(prev, i) == repeats_at(cur, i));
                }
            }
            assert forall|k: int| 0 <= k < cur.len() implies is_word(#[trigger] cur[k]) by {
                if k < prev.len() {
                    assert(cur[k] == prev[k]);
                }
            }
        }
    }
}

proof fn lemma_repeat_pass_keeps_distinct(words: Seq<Seq<char>>, n: int)
    requires
        0 <= n <= words.len(),
        no_adjacent_repeats(words),
    ensures
        repeat_pass(words, n) == words.take(n),
    decreases n,
{
    if n > 0 {
        lemma_repeat_pass_keeps_distinct(words, n - 1);
        if n >= 2 {
            assert(!repeats_at(words, n - 2));
            assert(words.take(n - 1).last() == words[n - 2]);
        }
        assert(words.take(n - 1).push(words[n - 1]) =~= words.take(n));
    }
}

/// After collapsing, no word repeats the one before it; so collapsing again changes
/// nothing.
pub proof fn lemma_collapsed_has_no_repeats(text: Seq<char>)
    ensures
        no_adjacent_repeats(split_ws(without_repeats(text))),
        without_repeats(without_repeats(text)) == without_repeats(text),
{
    let words = split_ws(text);
    let kept = repeat_pass(words, words.len() as int);
    lemma_split_ws_are_words(text);
    lemma_repeat_pass_shape(words, words.len() as int);
    lemma_split_join(kept);
    lemma_repeat_pass_keeps_distinct(kept, kept.len() as int);
    assert(kept.take(kept.len() as int) =~= kept);
}

fn repeats_collapsed(text: &Vec<char>) -> (r: Vec<char>)
    ensures
        r@ == without_repeats(text@),
{
    let words = split_words(text);
    let ghost ws = views(words@);
    let mut kept: Vec<Vec<char>> = Vec::new();
    let mut last_key: Vec<char> = Vec::new();
    let mut i: usize = 0;
    while i < words.len()
        invariant
            i <= words.len(),
            ws == views(words@),
            views(kept@) == repeat_pass(ws, i as int),
            kept.len() > 0 ==> last_key@ == word_key(kept@.last()@),
        decreases words.len() - i,
    {
        let k = word_key_chars(&words[i]);
        assert(ws[i as int] == words@[i as int]@);
        if kept.len() > 0 && eq_chars(&last_key, &k) && k.len() > 0 {
            assert(views(kept@).last() == kept@.last()@);
        } else {
            let w = words[i].clone();
            kept.push(w);
            last_key = k;
            assert(views(kept@) =~= repeat_pass(ws, i as int).push(ws[i as int]));
        }
        i = i + 1;
    }
    let mut sep: Vec<char> = Vec::new();
    sep.push(' ');
    assert(sep@ =~= space());
    join_chars(&kept, &sep)
}

/// `text` with consecutive repeated words (same non-empty key) collapsed to one.
pub fn collapse_repeats(text: &str) -> (r: String)
    ensures
        r@ == without_repeats(text@),
{
    let v = to_chars(text);
    from_chars(&repeats_collapsed(&v))
}

// ---------------------------------------------------------------------------
// False starts
// ---------------------------------------------------------------------------

/// The pieces of `s` between occurrences of `sep`, as `str::split` yields them (an empty
/// string gives one empty piece).
pub open spec fn split_on(s: Seq<char>, sep: char) -> Seq<Seq<char>>
    decreases s.len(),
{
    if s.len() == 0 {
        seq![seq![]]
    } else {
        let prev = split_on(s.drop_last(), sep);
        if s.last() == sep {
            prev.push(seq![])
        } else {
            prev.update(prev.len() - 1, prev.last().push(s.last()))
        }
    }
}

pub proof fn lemma_split_on_nonempty(s: Seq<char>, sep: char)
    ensures
        split_on(s, sep).len() > 0,
    decreases s.len(),
{
    if s.len() > 0 {
        lemma_split_on_nonempty(s.drop_last(), sep);
    }
}

/// A character code with ASCII upper-case letters mapped to lower case.
pub open spec fn ascii_fold(c: char) -> u32 {
    let x = c as u32;
    if 0x41 <= x <= 0x5a {
        (x + 0x20) as u32
    } else {
        x
    }
}

/// Equality up to ASCII case, as `str::eq_ignore_ascii_case` decides it.
pub open spec fn eq_ignore_ascii_case(a: Seq<char>, b: Seq<char>) -> bool {
    &&& a.len() == b.len()
    &&& forall|i: int| 0 <= i < a.len() ==> ascii_fold(#[trigger] a[i]) == ascii_fold(b[i])
}

/// The spoken cues that mark a false start.
pub open spec fn is_false_start_cue(seg: Seq<char>) -> bool {
    ||| eq_ignore_ascii_case(seg, "no wait"@)
    ||| eq_ignore_ascii_case(seg, "i mean"@)
    ||| eq_ignore_ascii_case(seg, "sorry"@)
    ||| eq_ignore_ascii_case(seg, "actually"@)
    ||| eq_ignore_ascii_case(seg, "let me rephrase"@)
    ||| eq_ignore_ascii_case(seg, "rather"@)
}

/// The trimmed comma-delimited segments among the first `n` that are not a cue.
pub open spec fn segment_pass(segs: Seq<Seq<char>>, n: int) -> Seq<Seq<char>>
    decreases n,
{
    if n <= 0 {
        seq![]
    } else {
        let prev = segment_pass(segs, n - 1);
        let t = trim_ws(segs[n - 1]);
        if is_false_start_cue(t) {
            prev
        } else {
            prev.push(t)
        }
    }
}

/// ", " joins the kept segments.
pub open spec fn comma_space() -> Seq<char> {
    seq![',', ' ']
}

/// `text` without the comma-delimited segments that are exactly a false-start cue; the
/// remaining segments are trimmed and re-joined by ", ".
pub open spec fn without_false_starts(text: Seq<char>) -> Seq<char> {
    let segs = split_on(text, ',');
    join(segment_pass(segs, segs.len() as int), comma_space())
}

fn fold_code(c: char) -> (x: u32)
    ensures
        x == ascii_fold(c),
{
    let x = c as u32;
    if 0x41 <= x && x <= 0x5a {
        x + 0x20
    } else {
        x
    }
}

/// Whether two character vectors are equal up to ASCII case.
pub fn eq_ignore_case_chars(a: &Vec<char>, l: &Vec<char>) -> (b: bool)
    ensures
        b == eq_ignore_ascii_case(a@, l@),
{
    if a.len() != l.len() {
        return false;
    }
    let mut i: usize = 0;
    while i < a.len()
        invariant
            i <= a.len(),
            a.len() == l.len(),
            forall|j: int| 0 <= j < i ==> ascii_fold(#[trigger] a@[j]) == ascii_fold(l@[j]),
        decreases a.len() - i,
    {
        if fold_code(a[i]) != fold_code(l[i]) {
            return false;
        }
        i = i + 1;
    }
    true
}

fn eq_ignore_case_str(a: &Vec<char>, lit: &str) -> (b: bool)
    ensures
        b == eq_ignore_ascii_case(a@, lit@),
{
    let l = to_chars(lit);
    eq_ignore_case_chars(a, &l)
}

fn is_cue(seg: &Vec<char>) -> (b: bool)
    ensures
        b == is_false_start_cue(seg@),
{
    eq_ignore_case_str(seg, "no wait") || eq_ignore_case_str(seg, "i mean") || eq_ignore_case_str(
        seg,
        "sorry",
    ) || eq_ignore_case_str(seg, "actually") || eq_ignore_case_str(seg, "let me rephrase")
        || eq_ignore_case_str(seg, "rather")
}

/// The pieces of `v` between occurrences of `sep`.
pub fn split_chars_on(v: &Vec<char>, sep: char) -> (r: Vec<Vec<char>>)
    ensures
        views(r@) == split_on(v@, sep),
{
    let mut out: Vec<Vec<char>> = Vec::new();
    let mut cur: Vec<char> = Vec::new();
    let mut i: usize = 0;
    assert(v@.take(0) =~= Seq::<char>::empty());
    while i < v.len()
        invariant
            i <= v.len(),
            views(out@).push(cur@) == split_on(v@.take(i as int), sep),
        decreases v.len() - i,
    {
        let c = v[i];
        let ghost pre = v@.take(i as int);
        let ghost post = v@.take(i + 1);
        assert(post.drop_last() =~= pre);
        proof {
            lemma_split_on_nonempty(pre, sep);
        }
        if c == sep {
            let done = cur;
            out.push(done);
            cur = Vec::new();
            assert(views(out@) =~= views(out@.drop_last()).push(done@));
            assert(views(out@).push(cur@) =~= split_on(pre, sep).push(seq![]));
        } else {
            let ghost old_out = views(out@);
            cur.push(c);
            assert(views(out@).push(cur@) =~= split_on(pre, sep).update(
                split_on(pre, sep).len() - 1,
                split_on(pre, sep).last().push(c),
            ));
        }
        i = i + 1;
    }
    assert(v@.take(v.len() as int) =~= v@);
    let done = cur;
    out.push(done);
    assert(views(out@) =~= views(out@.drop_last()).push(done@));
    out
}

/// `s` holds no `c`.
pub open spec fn lacks(s: Seq<char>, c: char) -> bool {
    forall|i: int| 0 <= i < s.len() ==> #[trigger] s[i] != c
}

/// `s` neither begins nor ends with white space.
pub open spec fn is_trimmed(s: Seq<char>) -> bool {
    s.len() == 0 || (!is_ws(s[0]) && !is_ws(s.last()))
}

pub proof fn lemma_split_on_single(s: Seq<char>, sep: char)
    requires
        lacks(s, sep),
    ensures
        split_on(s, sep) == seq![s],
    decreases s.len(),
{
    if s.len() > 0 {
        assert forall|i: int| 0 <= i < s.drop_last().len() implies #[trigger] s.drop_last()[i]
            != sep by {
            assert(s.drop_last()[i] == s[i]);
        }
        lemma_split_on_single(s.drop_last(), sep);
        assert(s.last() == s[s.len() - 1]);
        assert(s.drop_last().push(s.last()) =~= s);
        assert(split_on(s, sep) =~= seq![s]);
    } else {
        assert(s =~= Seq::<char>::empty());
        assert(split_on(s, sep) =~= seq![s]);
    }
}

proof fn lemma_split_on_concat(x: Seq<char>, y: Seq<char>, sep: char)
    ensures
        split_on(x + seq![sep] + y, sep) == split_on(x, sep) + split_on(y, sep),
    decreases y.len(),
{
    let z = x + seq![sep] + y;
    if y.len() == 0 {
        assert(z.drop_last() =~= x);
        assert(split_on(x, sep).push(seq![]) =~= split_on(x, sep) + split_on(y, sep));
    } else {
        assert(z.drop_last() =~= x + seq![sep] + y.drop_last());
        lemma_split_on_concat(x, y.drop_last(), sep);
        lemma_split_on_nonempty(y.drop_last(), sep);
        let a = split_on(x, sep);
        let b = split_on(y.drop_last(), sep);
        let c = y.last();
        assert(z.last() == c);
        if c == sep {
            assert((a + b).push(seq![]) =~= a + b.push(seq![]));
        } else {
            assert((a + b).last() == b.last());
            assert((a + b).update((a + b).len() - 1, (a + b).last().push(c)) =~= a + b.update(
                b.len() - 1,
                b.last().push(c),
            ));
        }
    }
}

/// The pieces that splitting `join(segs, ", ")` at its commas gives back.
pub open spec fn comma_pieces(segs: Seq<Seq<char>>) -> Seq<Seq<char>> {
    Seq::new(segs.len(), |i: int| if i == 0 { segs[0] } else { seq![' '] + segs[i] })
}

proof fn lemma_split_joined_segments(segs: Seq<Seq<char>>)
    requires
        segs.len() >= 1,
        forall|i: int| 0 <= i < segs.len() ==> lacks(#[trigger] segs[i], ','),
    ensures
        split_on(join(segs, comma_space()), ',') == comma_pieces(segs),
    decreases segs.len(),
{
    if segs.len() == 1 {
        lemma_split_on_single(segs[0], ',');
        assert(comma_pieces(segs) =~= seq![segs[0]]);
    } else {
        let front = segs.drop_last();
        let last = segs.last();
        assert forall|i: int| 0 <= i < front.len() implies lacks(#[trigger] front[i], ',') by {
            assert(front[i] == segs[i]);
        }
        lemma_split_joined_segments(front);
        let tail = seq![' '] + last;
        assert(lacks(last, ','));
        assert(lacks(tail, ',')) by {
            assert forall|i: int| 0 <= i < tail.len() implies #[trigger] tail[i] != ',' by {
                if i > 0 {
                    assert(tail[i] == last[i - 1]);
                }
            }
        }
        lemma_split_on_single(tail, ',');
        assert(join(segs, comma_space()) =~= join(front, comma_space()) + seq![','] + tail);
        lemma_split_on_concat(join(front, comma_space()), tail, ',');
        assert(comma_pieces(front) + seq![tail] =~= comma_pieces(segs));
    }
}

proof fn lemma_trim_start_lacks(s: Seq<char>, mode: TrimMode, c: char)
    requires
        lacks(s, c),
    ensures
        lacks(trim_start(s, mode), c),
        trim_start(s, mode).len() == 0 || !dropped(mode, trim_start(s, mode)[0]),
    decreases s.len(),
{
    if s.len() > 0 && dropped(mode, s[0]) {
        assert forall|i: int| 0 <= i < s.drop_first().len() implies #[trigger] s.drop_first()[i]
            != c by {
            assert(s.drop_first()[i] == s[i + 1]);
        }
        lemma_trim_start_lacks(s.drop_first(), mode, c);
    }
}

proof fn lemma_trim_end_prefix(s: Seq<char>, mode: TrimMode)
    ensures
        trim_end(s, mode).len() <= s.len(),
        trim_end(s, mode) == s.take(trim_end(s, mode).len() as int),
        trim_end(s, mode).len() == 0 || !dropped(mode, trim_end(s, mode).last()),
    decreases s.len(),
{
    if s.len() > 0 && dropped(mode, s.last()) {
        lemma_trim_end_prefix(s.drop_last(), mode);
        assert(s.drop_last().take(trim_end(s, mode).len() as int) =~= s.take(
            trim_end(s, mode).len() as int,
        ));
    } else {
        assert(s.take(s.len() as int) =~= s);
    }
}

/// A trimmed segment is trimmed, and it keeps what its piece lacked.
proof fn lemma_trim_ws_shape(s: Seq<char>, c: char)
    requires
        lacks(s, c),
    ensures
        is_trimmed(trim_ws(s)),
        lacks(trim_ws(s), c),
{
    let a = trim_start(s, TrimMode::Whitespace);
    lemma_trim_start_lacks(s, TrimMode::Whitespace, c);
    lemma_trim_end_prefix(a, TrimMode::Whitespace);
    let t = trim_ws(s);
    if t.len() > 0 {
        assert(t[0] == a[0]);
    }
    assert forall|i: int| 0 <= i < t.len() implies #[trigger] t[i] != c by {
        assert(t[i] == a[i]);
    }
}

/// Trimming a trimmed text, or the same text behind one space, gives it back.
proof fn lemma_trim_ws_trimmed(t: Seq<char>)
    requires
        is_trimmed(t),
    ensures
        trim_ws(t) == t,
        trim_ws(seq![' '] + t) == t,
{
    let u = seq![' '] + t;
    assert(u.drop_first() =~= t);
    assert(is_ws(' '));
    if t.len() > 0 {
        assert(u[0] == ' ');
    } else {
        assert(u.drop_first().len() == 0);
    }
}

proof fn lemma_segment_pass_shape(segs: Seq<Seq<char>>, n: int)
    requires
        0 <= n <= segs.len(),
        forall|i: int| 0 <= i < segs.len() ==> lacks(#[trigger] segs[i], ','),
    ensures
        forall|k: int|
            0 <= k < segment_pass(segs, n).len() ==> {
                &&& lacks(#[trigger] segment_pass(segs, n)[k], ',')
                &&& is_trimmed(segment_pass(segs, n)[k])
                &&& !is_false_start_cue(segment_pass(segs, n)[k])
            },
    decreases n,
{
    if n > 0 {
        lemma_segment_pass_shape(segs, n - 1);
        lemma_trim_ws_shape(segs[n - 1], ',');
        let prev = segment_pass(segs, n - 1);
        let cur = segment_pass(segs, n);
        assert forall|k: int| 0 <= k < cur.len() implies {
            &&& lacks(#[trigger] cur[k], ',')
            &&& is_trimmed(cur[k])
            &&& !is_false_start_cue(cur[k])
        } by {
            if k < prev.len() {
                assert(cur[k] == prev[k]);
            }
        }
    }
}

proof fn lemma_segment_pass_of_pieces(kept: Seq<Seq<char>>, n: int)
    requires
        0 <= n <= kept.len(),
        forall|k: int|
            0 <= k < kept.len() ==> is_trimmed(#[trigger] kept[k]) && !is_false_start_cue(kept[k]),
    ensures
        segment_pass(comma_pieces(kept), n) == kept.take(n),
    decreases n,
{
    if n > 0 {
        lemma_segment_pass_of_pieces(kept, n - 1);
        lemma_trim_ws_trimmed(kept[n - 1]);
        assert(trim_ws(comma_pieces(kept)[n - 1]) == kept[n - 1]);
        assert(kept.take(n - 1).push(kept[n - 1]) =~= kept.take(n));
    }
}

proof fn lemma_pieces_lack_commas(text: Seq<char>)
    ensures
        forall|i: int| 0 <= i < split_on(text, ',').len() ==> lacks(#[trigger] split_on(text, ',')[i], ','),
    decreases text.len(),
{
    if text.len() > 0 {
        lemma_pieces_lack_commas(text.drop_last());
        lemma_split_on_nonempty(text.drop_last(), ',');
        let prev = split_on(text.drop_last(), ',');
        let cur = split_on(text, ',');
        let c = text.last();
        assert forall|i: int| 0 <= i < cur.len() implies lacks(#[trigger] cur[i], ',') by {
            if c != ',' && i == prev.len() - 1 {
                let w = prev.last().push(c);
                assert(cur[i] == w);
                assert forall|j: int| 0 <= j < w.len() implies #[trigger] w[j] != ',' by {
                    if j < prev.last().len() {
                        assert(w[j] == prev.last()[j]);
                        assert(lacks(prev[prev.len() - 1], ','));
                    }
                }
            } else if i < prev.len() {
                assert(cur[i] == prev[i]);
            }
        }
    }
}

/// No comma-delimited segment of the result, trimmed, is a false-start cue; so removing
/// false starts again changes nothing.
pub proof fn lemma_no_false_start_left(text: Seq<char>)
    ensures
        forall|i: int|
            0 <= i < split_on(without_false_starts(text), ',').len() ==> !is_false_start_cue(
                trim_ws(#[trigger] split_on(without_false_starts(text), ',')[i]),
            ),
        without_false_starts(without_false_starts(text)) == without_false_starts(text),
{
    let segs = split_on(text, ',');
    let kept = segment_pass(segs, segs.len() as int);
    let r = without_false_starts(text);
    lemma_pieces_lack_commas(text);
    lemma_segment_pass_shape(segs, segs.len() as int);
    if kept.len() == 0 {
        reveal_strlit("no wait");
        reveal_strlit("i mean");
        reveal_strlit("sorry");
        reveal_strlit("actually");
        reveal_strlit("let me rephrase");
        reveal_strlit("rather");
        assert(r.len() == 0);
        assert(split_on(r, ',') =~= seq![Seq::<char>::empty()]);
        assert(trim_ws(Seq::<char>::empty()) =~= Seq::<char>::empty());
        assert(!is_false_start_cue(Seq::<char>::empty()));
        assert(segment_pass(split_on(r, ','), 0) =~= Seq::<Seq<char>>::empty());
        assert(segment_pass(split_on(r, ','), 1) =~= seq![Seq::<char>::empty()]);
    } else {
        lemma_split_joined_segments(kept);
        let pieces = comma_pieces(kept);
        assert forall|i: int| 0 <= i < pieces.len() implies !is_false_start_cue(
            trim_ws(#[trigger] pieces[i]),
        ) by {
            lemma_trim_ws_trimmed(kept[i]);
        }
        lemma_segment_pass_of_pieces(kept, kept.len() as int);
        assert(kept.take(kept.len() as int) =~= kept);
    }
}

fn false_starts_removed(text: &Vec<char>) -> (r: Vec<char>)
    ensures
        r@ == without_false_starts(text@),
{
    let segs = split_chars_on(text, ',');
    let ghost ss = views(segs@);
    let mut kept: Vec<Vec<char>> = Vec::new();
    let mut i: usize = 0;
    while i < segs.len()
        invariant
            i <= segs.len(),
            ss == views(segs@),
            views(kept@) == segment_pass(ss, i as int),
        decreases segs.len() - i,
    {
        let t = trim_chars(&segs[i], TrimMode::Whitespace);
        assert(ss[i as int] == segs@[i as int]@);
        if !is_cue(&t) {
            kept.push(t);
            assert(views(kept@) =~= segment_pass(ss, i as int).push(trim_ws(ss[i as int])));
        }
        i = i + 1;
    }
    let mut sep: Vec<char> = Vec::new();
    sep.push(',');
    sep.push(' ');
    assert(sep@ =~= comma_space());
    join_chars(&kept, &sep)
}

/// `text` without comma-delimited segments that are exactly a false-start cue ("no wait",
/// "i mean", "sorry", "actually", "let me rephrase", "rather", in any ASCII case).
pub fn remove_false_starts(text: &str) -> (r: String)
    ensures
        r@ == without_false_starts(text@),
{
    let v = to_chars(text);
    from_chars(&false_starts_removed(&v))
}

// ---------------------------------------------------------------------------
// Trailing fragments
// ---------------------------------------------------------------------------

/// Words that leave a sentence dangling when they end it.
pub open spec fn is_dangling(k: Seq<char>) -> bool {
    ||| k == "and"@
    ||| k == "but"@
    ||| k == "or"@
    ||| k == "so"@
    ||| k == "because"@
    ||| k == "to"@
    ||| k == "of"@
    ||| k == "with"@
    ||| k == "that"@
}

/// Whether a character closes a sentence.
pub open spec fn is_sentence_end(c: char) -> bool {
    c == '.' || c == '?' || c == '!'
}

/// The trimmed `text` without its last word when that word is a dangling connective that
/// follows a finished sentence; an all-blank text gives the empty text.
pub open spec fn without_fragment(text: Seq<char>) -> Seq<char> {
    let t = trim_ws(text);
    let words = split_ws(t);
    if words.len() == 0 {
        seq![]
    } else {
        let last = words.last();
        if !is_dangling(word_key(last)) {
            t
        } else {
            let rest = trim_end(t.take(t.len() - last.len()), TrimMode::Whitespace);
            if rest.len() > 0 && is_sentence_end(rest.last()) {
                rest
            } else {
                t
            }
        }
    }
}

fn is_dangling_key(k: &Vec<char>) -> (b: bool)
    ensures
        b == is_dangling(k@),
{
    eq_str(k, "and") || eq_str(k, "but") || eq_str(k, "or") || eq_str(k, "so") || eq_str(
        k,
        "because",
    ) || eq_str(k, "to") || eq_str(k, "of") || eq_str(k, "with") || eq_str(k, "that")
}

/// `v` without trailing white space.
fn trim_end_ws(v: &Vec<char>) -> (r: Vec<char>)
    ensures
        r@ == trim_end(v@, TrimMode::Whitespace),
{
    let mut end: usize = v.len();
    while end > 0 && is_whitespace(v[end - 1])
        invariant
            end <= v.len(),
            forall|j: int| end <= j < v.len() ==> dropped(TrimMode::Whitespace, #[trigger] v@[j]),
        decreases end,
    {
        end = end - 1;
    }
    proof {
        lemma_trim_end(v@, TrimMode::Whitespace, end as int);
    }
    slice_chars(v, 0, end)
}

fn fragment_removed(text: &Vec<char>) -> (r: Vec<char>)
    ensures
        r@ == without_fragment(text@),
{
    let t = trim_chars(text, TrimMode::Whitespace);
    let words = split_words(&t);
    if words.len() == 0 {
        return Vec::new();
    }
    let last = &words[words.len() - 1];
    assert(views(words@).last() == last@);
    let k = word_key_chars(last);
    if !is_dangling_key(&k) {
        return t;
    }
    proof {
        lemma_split_ws_words(t@);
        assert(views(words@)[words.len() - 1] == last@);
    }
    let head = slice_chars(&t, 0, t.len() - last.len());
    assert(head@ =~= t@.take(t.len() - last@.len()));
    let rest = trim_end_ws(&head);
    if rest.len() > 0 && (rest[rest.len() - 1] == '.' || rest[rest.len() - 1] == '?' || rest[rest.len()
        - 1] == '!') {
        rest
    } else {
        t
    }
}

/// The trimmed `text` without a trailing dangling connective ("and", "but", "or", "so",
/// The words that filler removal drops are exactly: `uh`, `um`, `uhh`, `umm`, `er`, `ah`,
/// `hmm` and the caller's fillers, except `ah` before yes/no/okay/right and `hmm` before
/// let/well/okay; and `like`, except after would/looks/feel/seem or before
/// a/an/the/that/this.
pub proof fn lemma_dropped_words(words: Seq<Seq<char>>, custom: Seq<Seq<char>>, i: int)
    requires
        0 <= i < words.len(),
    ensures
        ({
            let k = word_key(words[i]);
            let has_next = i + 1 < words.len();
            let n = word_key(words[i + 1]);
            let p = word_key(words[i - 1]);
            let filler = k == "uh"@ || k == "um"@ || k == "uhh"@ || k == "umm"@ || k == "er"@ || k
                == "ah"@ || k == "hmm"@ || custom.contains(k);
            let meaningful = has_next && ((k == "ah"@ && (n == "yes"@ || n == "no"@ || n
                == "okay"@ || n == "right"@)) || (k == "hmm"@ && (n == "let"@ || n == "well"@ || n
                == "okay"@)));
            let keep_like = (i >= 1 && (p == "would"@ || p == "looks"@ || p == "feel"@ || p
                == "seem"@)) || (has_next && (n == "a"@ || n == "an"@ || n == "the"@ || n
                == "that"@ || n == "this"@));
            is_dropped_word(words, custom, i) == ((filler && !meaningful) || (k == "like"@
                && !keep_like))
        }),
{
}

/// The false-start cues are exactly "no wait", "i mean", "sorry", "actually", "let me
/// rephrase" and "rather", in any ASCII case.
pub proof fn lemma_false_start_cues(seg: Seq<char>)
    ensures
        is_false_start_cue(seg) == (eq_ignore_ascii_case(seg, "no wait"@) || eq_ignore_ascii_case(
            seg,
            "i mean"@,
        ) || eq_ignore_ascii_case(seg, "sorry"@) || eq_ignore_ascii_case(seg, "actually"@)
            || eq_ignore_ascii_case(seg, "let me rephrase"@) || eq_ignore_ascii_case(seg, "rather"@)),
{
}

/// The dangling connectives are exactly `and`, `but`, `or`, `so`, `because`, `to`, `of`,
/// `with` and `that`: a trimmed text whose last word has one of these keys, and whose text
/// before that word (trimmed at its end) is a finished sentence, loses that word; a text
/// whose last word is anything else is only trimmed.
pub proof fn lemma_dangling_connectives(text: Seq<char>)
    requires
        split_ws(trim_ws(text)).len() > 0,
    ensures
        ({
            let t = trim_ws(text);
            let last = split_ws(t).last();
            let k = word_key(last);
            let rest = trim_end(t.take(t.len() - last.len()), TrimMode::Whitespace);
            let connective = k == "and"@ || k == "but"@ || k == "or"@ || k == "so"@ || k
                == "because"@ || k == "to"@ || k == "of"@ || k == "with"@ || k == "that"@;
            &&& connective && rest.len() > 0 && (rest.last() == '.' || rest.last() == '?'
                || rest.last() == '!') ==> without_fragment(text) == rest
            &&& connective && !(rest.len() > 0 && (rest.last() == '.' || rest.last() == '?'
                || rest.last() == '!')) ==> without_fragment(text) == t
            &&& !connective ==> without_fragment(text) == t
        }),
{
}

/// Fragment removal only ever cuts the trimmed text short: what it returns is how the
/// trimmed text begins, and when it is shorter (and not empty) it ends a sentence.
pub proof fn lemma_fragment_cut_is_prefix(text: Seq<char>)
    ensures
        ({
            let t = trim_ws(text);
            let r = without_fragment(text);
            &&& r.len() <= t.len()
            &&& r == t.take(r.len() as int)
            &&& 0 < r.len() < t.len() ==> is_sentence_end(r.last())
        }),
{
    let t = trim_ws(text);
    let words = split_ws(t);
    assert(t.take(t.len() as int) =~= t);
    if words.len() > 0 {
        lemma_split_ws_words(t);
        let last = words.last();
        assert(last == words[words.len() - 1]);
        let m = t.len() - last.len();
        let head = t.take(m);
        lemma_trim_end_prefix(head, TrimMode::Whitespace);
        let rest = trim_end(head, TrimMode::Whitespace);
        assert(rest =~= t.take(rest.len() as int));
    }
}

/// "because", "to", "of", "with", "that") that follows a finished sentence.
pub fn remove_incomplete_fragment(text: &str) -> (r: String)
    ensures
        r@ == without_fragment(text@),
{
    let v = to_chars(text);
    from_chars(&fragment_removed(&v))
}

// ---------------------------------------------------------------------------
// The whole clean-up
// ---------------------------------------------------------------------------

/// `t` with its first character upper-cased when it is lower-case.
pub open spec fn capitalized(t: Seq<char>) -> Seq<char> {
    if t.len() > 0 && char_is_lowercase(t[0]) {
        char_to_uppercase(t[0]) + t.drop_first()
    } else {
        t
    }
}

/// The clean-up stages, in order, on text whose words are already single-spaced.
pub open spec fn cleaned_stages(
    t0: Seq<char>,
    fillers: bool,
    repeats: bool,
    false_starts: bool,
    fragments: bool,
    custom: Seq<Seq<char>>,
) -> Seq<char> {
    let t1 = if fillers { without_fillers(t0, custom) } else { t0 };
    let t2 = if repeats { without_repeats(t1) } else { t1 };
    let t3 = if false_starts { without_false_starts(t2) } else { t2 };
    let t4 = if fragments { without_fragment(t3) } else { t3 };
    t4
}

/// The cleaned transcript: white space squeezed, then each enabled stage, then the first
/// letter capitalised.
pub open spec fn cleaned(raw: Seq<char>, config: CleanConfig) -> Seq<char> {
    capitalized(
        cleaned_stages(
            squeeze_ws(raw),
            config.remove_fillers,
            config.collapse_repeats,
            config.remove_false_starts,
            config.remove_incomplete_fragments,
            custom_keys(config.custom_fillers@),
        ),
    )
}

/// Cleans a raw transcript: squeezes white space, removes fillers, collapses repeats,
/// drops false starts and a dangling trailing fragment (each as `config` enables), and
/// capitalises the first letter.
pub fn clean(raw: &str, config: &CleanConfig) -> (r: String)
    ensures
        r@ == cleaned(raw@, *config),
{
    let v = to_chars(raw);
    let mut text = squeeze_chars(&v);
    if config.remove_fillers {
        let custom = lowered_fillers(&config.custom_fillers);
        text = fillers_removed(&text, &custom);
    }
    if config.collapse_repeats {
        text = repeats_collapsed(&text);
    }
    if config.remove_false_starts {
        text = false_starts_removed(&text);
    }
    if config.remove_incomplete_fragments {
        text = fragment_removed(&text);
    }
    if text.len() > 0 && is_lowercase(text[0]) {
        let upper = to_uppercase(text[0]);
        let mut out = to_chars(upper.as_str());
        let rest = slice_chars(&text, 1, text.len());
        assert(rest@ =~= text@.drop_first());
        append_chars(&mut out, &rest);
        from_chars(&out)
    } else {
        from_chars(&text)
    }
}

} // verus!
