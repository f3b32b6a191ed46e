//! Character classes and whitespace-separated words, over sequences of `char`.
use vstd::prelude::*;

verus! {

pub assume_specification[ String::push ](s: &mut String, ch: char)
    ensures
        final(s)@ == old(s)@.push(ch),
;

// ---------------------------------------------------------------------------
// Character classes
// ---------------------------------------------------------------------------

/// The Unicode `White_Space` property, which `char::is_whitespace` tests.
pub open spec fn is_ws(c: char) -> bool {
    let x = c as u32;
    ||| 0x09 <= x <= 0x0d
    ||| x == 0x20
    ||| x == 0x85
    ||| x == 0xa0
    ||| x == 0x1680
    ||| 0x2000 <= x <= 0x200a
    ||| x == 0x2028
    ||| x == 0x2029
    ||| x == 0x202f
    ||| x == 0x205f
    ||| x == 0x3000
}

/// Whether `c` is white space in the sense of Unicode's `White_Space` property.
pub fn is_whitespace(c: char) -> (b: bool)
    ensures
        b == is_ws(c),
{
    let x = c as u32;
    (0x09 <= x && x <= 0x0d) || x == 0x20 || x == 0x85 || x == 0xa0 || x == 0x1680 || (0x2000
        <= x && x <= 0x200a) || x == 0x2028 || x == 0x2029 || x == 0x202f || x == 0x205f || x
        == 0x3000
}

/// What `char::is_alphanumeric` answers for a character.
pub uninterp spec fn char_is_alphanumeric(c: char) -> bool;

/// What `char::is_lowercase` answers for a character.
pub uninterp spec fn char_is_lowercase(c: char) -> bool;

/// The characters that `char::to_uppercase` yields for a character.
pub uninterp spec fn char_to_uppercase(c: char) -> Seq<char>;

/// The characters of what `str::to_lowercase` returns for a string.
pub uninterp spec fn str_to_lowercase(s: Seq<char>) -> Seq<char>;

/// Calls `char::is_alphanumeric`; the contract claims only that the answer is the
/// function of the character that `char_is_alphanumeric` names.
#[verifier::external_body]
pub(crate) fn is_alphanumeric(c: char) -> (b: bool)
    ensures
        b == char_is_alphanumeric(c),
{
    c.is_alphanumeric()
}

/// Calls `char::is_lowercase`; the contract claims only that the answer is the
/// function of the character that `char_is_lowercase` names.
#[verifier::external_body]
pub(crate) fn is_lowercase(c: char) -> (b: bool)
    ensures
        b == char_is_lowercase(c),
{
    c.is_lowercase()
}

/// Calls `char::to_uppercase` and collects what it yields; the contract claims that the
/// characters are those that `char_to_uppercase` names for `c`.
#[verifier::external_body]
pub(crate) fn to_uppercase(c: char) -> (s: String)
    ensures
        s@ == char_to_uppercase(c),
{
    c.to_uppercase().collect()
}

/// Calls `str::to_lowercase`; the contract claims that the result's characters are
/// those that `str_to_lowercase` names for the argument's characters.
#[verifier::external_body]
pub(crate) fn to_lowercase(s: &str) -> (r: String)
    ensures
        r@ == str_to_lowercase(s@),
{
    s.to_lowercase()
}

/// A character that `char::is_alphanumeric` rejects.
pub open spec fn not_alnum(c: char) -> bool {
    !char_is_alphanumeric(c)
}

// ---------------------------------------------------------------------------
// Trimming
// ---------------------------------------------------------------------------

/// The two trimming modes used in this crate.
#[derive(Clone, Copy, PartialEq, Eq)]
pub enum TrimMode {
    /// Unicode white space, as `str::trim` drops.
    Whitespace,
    /// Characters that are not alphanumeric, as `trim_matches(|c| !c.is_alphanumeric())` drops.
    NonAlphanumeric,
}

/// Whether `mode` drops `c`.
pub open spec fn dropped(mode: TrimMode, c: char) -> bool {
    match mode {
        TrimMode::Whitespace => is_ws(c),
        TrimMode::NonAlphanumeric => not_alnum(c),
    }
}

/// `s` without the leading characters that `mode` drops.
pub open spec fn trim_start(s: Seq<char>, mode: TrimMode) -> Seq<char>
    decreases s.len(),
{
    if s.len() > 0 && dropped(mode, s[0]) {
        trim_start(s.drop_first(), mode)
    } else {
        s
    }
}

/// `s` without the trailing characters that `mode` drops.
pub open spec fn trim_end(s: Seq<char>, mode: TrimMode) -> Seq<char>
    decreases s.len(),
{
    if s.len() > 0 && dropped(mode, s.last()) {
        trim_end(s.drop_last(), mode)
    } else {
        s
    }
}

/// `s` without the leading and trailing characters that `mode` drops.
pub open spec fn trim(s: Seq<char>, mode: TrimMode) -> Seq<char> {
    trim_end(trim_start(s, mode), mode)
}

/// `s` without leading and trailing white space, as `str::trim` returns it.
pub open spec fn trim_ws(s: Seq<char>) -> Seq<char> {
    trim(s, TrimMode::Whitespace)
}

fn drops(mode: TrimMode, c: char) -> (b: bool)
    ensures
        b == dropped(mode, c),
{
    match mode {
        TrimMode::Whitespace => is_whitespace(c),
        TrimMode::NonAlphanumeric => !is_alphanumeric(c),
    }
}

pub proof fn lemma_trim_start(s: Seq<char>, mode: TrimMode, k: int)
    requires
        0 <= k <= s.len(),
        forall|j: int| 0 <= j < k ==> dropped(mode, #[trigger] s[j]),
        k == s.len() || !dropped(mode, s[k]),
    ensures
        trim_start(s, mode) == s.skip(k),
    decreases k,
{
    if k > 0 {
        assert forall|j: int| 0 <= j < k - 1 implies dropped(mode, #[trigger] s.drop_first()[j]) by {
            assert(s.drop_first()[j] == s[j + 1]);
        }
        lemma_trim_start(s.drop_first(), mode, k - 1);
        assert(s.drop_first().skip(k - 1) =~= s.skip(k));
    } else {
        assert(s.skip(0) =~= s);
    }
}

pub proof fn lemma_trim_end(s: Seq<char>, mode: TrimMode, k: int)
    requires
        0 <= k <= s.len(),
        forall|j: int| k <= j < s.len() ==> dropped(mode, #[trigger] s[j]),
        k == 0 || !dropped(mode, s[k - 1]),
    ensures
        trim_end(s, mode) == s.take(k),
    decreases s.len() - k,
{
    if k < s.len() {
        assert forall|j: int| k <= j < s.drop_last().len() implies dropped(
            mode,
            #[trigger] s.drop_last()[j],
        ) by {
            assert(s.drop_last()[j] == s[j]);
        }
        lemma_trim_end(s.drop_last(), mode, k);
        assert(s.drop_last().take(k) =~= s.take(k));
    } else {
        assert(s.take(k) =~= s);
    }
}

/// The characters of `v` between `start` and `end`.
pub fn slice_chars(v: &Vec<char>, start: usize, end: usize) -> (r: Vec<char>)
    requires
        start <= end <= v.len(),
    ensures
        r@ == v@.subrange(start as int, end as int),
{
    let mut r: Vec<char> = Vec::new();
    let mut i = start;
    while i < end
        invariant
            start <= i <= end <= v.len(),
            r@ == v@.subrange(start as int, i as int),
        decreases end - i,
    {
        r.push(v[i]);
        i = i + 1;
        assert(r@ =~= v@.subrange(start as int, i as int));
    }
    r
}

/// `v` without the leading characters that `mode` drops.
pub fn trim_start_chars(v: &Vec<char>, mode: TrimMode) -> (r: Vec<char>)
    ensures
        r@ == trim_start(v@, mode),
{
    let mut start: usize = 0;
    while start < v.len() && drops(mode, v[start])
        invariant
            start <= v.len(),
            forall|j: int| 0 <= j < start ==> dropped(mode, #[trigger] v@[j]),
        decreases v.len() - start,
    {
        start = start + 1;
    }
    proof {
        lemma_trim_start(v@, mode, start as int);
    }
    let r = slice_chars(v, start, v.len());
    assert(r@ =~= v@.skip(start as int));
    r
}

/// `v` without the leading and trailing characters that `mode` drops.
pub fn trim_chars(v: &Vec<char>, mode: TrimMode) -> (r: Vec<char>)
    ensures
        r@ == trim(v@, mode),
{
    let mut start: usize = 0;
    while start < v.len() && drops(mode, v[start])
        invariant
            start <= v.len(),
            forall|j: int| 0 <= j < start ==> dropped(mode, #[trigger] v@[j]),
        decreases v.len() - start,
    {
        start = start + 1;
    }
    proof {
        lemma_trim_start(v@, mode, start as int);
    }
    let ghost rest = v@.skip(start as int);
    let mut end: usize = v.len();
    while end > start && drops(mode, v[end - 1])
        invariant
            start <= end <= v.len(),
            rest == v@.skip(start as int),
            forall|j: int| end <= j < v.len() ==> dropped(mode, #[trigger] v@[j]),
        decreases end,
    {
        end = end - 1;
    }
    proof {
        assert forall|j: int| (end - start) <= j < rest.len() implies dropped(
            mode,
            #[trigger] rest[j],
        ) by {
            assert(rest[j] == v@[j + start]);
        }
        lemma_trim_end(rest, mode, end - start);
        assert(rest.take(end - start) =~= v@.subrange(start as int, end as int));
    }
    slice_chars(v, start, end)
}

// ---------------------------------------------------------------------------
// Conversions between `str`, `String` and `Vec<char>`
// ---------------------------------------------------------------------------

/// The characters of a string slice, in order.
pub fn to_chars(s: &str) -> (v: Vec<char>)
    ensures
        v@ == s@,
{
    let mut v: Vec<char> = Vec::new();
    for c in it: s.chars()
        invariant
            v@ == it.seq().take(it.index()),
    {
        v.push(c);
    }
    v
}

/// A string holding the given characters.
pub fn from_chars(v: &Vec<char>) -> (s: String)
    ensures
        s@ == v@,
{
    let mut s = String::new();
    let mut i: usize = 0;
    while i < v.len()
        invariant
            i <= v.len(),
            s@ == v@.take(i as int),
        decreases v.len() - i,
    {
        s.push(v[i]);
        i = i + 1;
        assert(v@.take(i as int) == v@.take((i - 1) as int).push(v@[i - 1]));
    }
    assert(v@.take(v.len() as int) == v@);
    s
}

/// Appends the characters of `src` to `dst`.
pub fn append_chars(dst: &mut Vec<char>, src: &Vec<char>)
    ensures
        final(dst)@ == old(dst)@ + src@,
{
    let mut i: usize = 0;
    while i < src.len()
        invariant
            i <= src.len(),
            dst@ == old(dst)@ + src@.take(i as int),
        decreases src.len() - i,
    {
        dst.push(src[i]);
        i = i + 1;
        assert(src@.take(i as int) == src@.take((i - 1) as int).push(src@[i - 1]));
    }
    assert(src@.take(src.len() as int) == src@);
}

/// Whether the characters of `v` are those of `lit`.
pub fn eq_str(v: &Vec<char>, lit: &str) -> (b: bool)
    ensures
        b == (v@ == lit@),
{
    let w = to_chars(lit);
    eq_chars(v, &w)
}

/// Whether two character vectors hold the same characters.
pub fn eq_chars(a: &Vec<char>, b: &Vec<char>) -> (r: bool)
    ensures
        r == (a@ == b@),
{
    if a.len() != b.len() {
        return false;
    }
    let mut i: usize = 0;
    while i < a.len()
        invariant
            i <= a.len(),
            a.len() == b.len(),
            forall|j: int| 0 <= j < i ==> a@[j] == b@[j],
        decreases a.len() - i,
    {
        if a[i] != b[i] {
            return false;
        }
        i = i + 1;
    }
    assert(a@ =~= b@);
    true
}

/// The characters of what `str::to_lowercase` returns for the characters of `v`.
pub fn lowercase_chars(v: &Vec<char>) -> (r: Vec<char>)
    ensures
        r@ == str_to_lowercase(v@),
{
    let s = from_chars(v);
    let l = to_lowercase(s.as_str());
    to_chars(l.as_str())
}

// ---------------------------------------------------------------------------
// Words
// ---------------------------------------------------------------------------

/// The views of a sequence of character vectors.
pub open spec fn views(v: Seq<Vec<char>>) -> Seq<Seq<char>> {
    v.map_values(|w: Vec<char>| w@)
}

/// The maximal runs of non-white-space characters of `s`, in order: what
/// `str::split_whitespace` yields.
pub open spec fn split_ws(s: Seq<char>) -> Seq<Seq<char>>
    decreases s.len(),
{
    if s.len() == 0 {
        seq![]
    } else {
        let prev = split_ws(s.drop_last());
        let c = s.last();
        if is_ws(c) {
            prev
        } else if s.len() >= 2 && !is_ws(s[s.len() - 2]) {
            prev.update(prev.len() - 1, prev.last().push(c))
        } else {
            prev.push(seq![c])
        }
    }
}

/// The pieces of `ws` with `sep` between each two neighbours.
pub open spec fn join(ws: Seq<Seq<char>>, sep: Seq<char>) -> Seq<char>
    decreases ws.len(),
{
    if ws.len() == 0 {
        seq![]
    } else if ws.len() == 1 {
        ws[0]
    } else {
        join(ws.drop_last(), sep) + sep + ws.last()
    }
}

/// A single space.
pub open spec fn space() -> Seq<char> {
    seq![' ']
}

/// The words of `s` joined by single spaces.
pub open spec fn squeeze_ws(s: Seq<char>) -> Seq<char> {
    join(split_ws(s), space())
}

/// Every word of `split_ws(s)` is a non-empty run no longer than `s`.
pub proof fn lemma_split_ws_words(s: Seq<char>)
    ensures
        forall|i: int|
            0 <= i < split_ws(s).len() ==> 0 < #[trigger] split_ws(s)[i].len() <= s.len(),
    decreases s.len(),
{
    if s.len() > 0 {
        let prev = split_ws(s.drop_last());
        lemma_split_ws_words(s.drop_last());
        let c = s.last();
        if is_ws(c) {
        } else if s.len() >= 2 && !is_ws(s[s.len() - 2]) {
            lemma_split_ws_last_word(s.drop_last());
            let r = prev.update(prev.len() - 1, prev.last().push(c));
            assert forall|i: int| 0 <= i < r.len() implies 0 < #[trigger] r[i].len() <= s.len() by {
                if i < prev.len() - 1 {
                    assert(r[i] == prev[i]);
                }
            }
        } else {
            let r = prev.push(seq![c]);
            assert forall|i: int| 0 <= i < r.len() implies 0 < #[trigger] r[i].len() <= s.len() by {
                if i < prev.len() {
                    assert(r[i] == prev[i]);
                }
            }
        }
    }
}

/// When `s` ends in a non-white-space character, it has a last word, and that word is
/// no longer than `s`.
proof fn lemma_split_ws_last_word(s: Seq<char>)
    requires
        s.len() > 0,
        !is_ws(s.last()),
    ensures
        split_ws(s).len() > 0,
        split_ws(s).last().len() <= s.len(),
    decreases s.len(),
{
    let prev = split_ws(s.drop_last());
    if s.len() >= 2 && !is_ws(s[s.len() - 2]) {
        lemma_split_ws_last_word(s.drop_last());
    }
}

/// The key under which words are compared: the word without its leading and trailing
/// non-alphanumeric characters, lower-cased.
pub open spec fn word_key(w: Seq<char>) -> Seq<char> {
    str_to_lowercase(trim(w, TrimMode::NonAlphanumeric))
}

/// The key of a word: see `word_key`.
pub fn word_key_chars(w: &Vec<char>) -> (k: Vec<char>)
    ensures
        k@ == word_key(w@),
{
    let t = trim_chars(w, TrimMode::NonAlphanumeric);
    lowercase_chars(&t)
}

/// The keys of a sequence of words.
pub fn word_keys(ws: &Vec<Vec<char>>) -> (ks: Vec<Vec<char>>)
    ensures
        ks.len() == ws.len(),
        forall|i: int| 0 <= i < ws.len() ==> #[trigger] ks@[i]@ == word_key(ws@[i]@),
{
    let mut ks: Vec<Vec<char>> = Vec::new();
    let mut i: usize = 0;
    while i < ws.len()
        invariant
            i <= ws.len(),
            ks.len() == i,
            forall|j: int| 0 <= j < i ==> #[trigger] ks@[j]@ == word_key(ws@[j]@),
        decreases ws.len() - i,
    {
        let k = word_key_chars(&ws[i]);
        ks.push(k);
        i = i + 1;
    }
    ks
}

/// Whether `list` holds a word equal to `w`.
pub fn contains_word(list: &Vec<Vec<char>>, w: &Vec<char>) -> (b: bool)
    ensures
        b == views(list@).contains(w@),
{
    let mut i: usize = 0;
    while i < list.len()
        invariant
            i <= list.len(),
            forall|j: int| 0 <= j < i ==> list@[j]@ != w@,
        decreases list.len() - i,
    {
        if eq_chars(&list[i], w) {
            assert(views(list@)[i as int] == w@);
            return true;
        }
        i = i + 1;
    }
    assert forall|j: int| 0 <= j < views(list@).len() implies views(list@)[j] != w@ by {
        assert(views(list@)[j] == list@[j]@);
    }
    false
}

/// The whitespace-separated words of `v`, as `str::split_whitespace` yields them.
pub fn split_words(v: &Vec<char>) -> (ws: Vec<Vec<char>>)
    ensures
        views(ws@) == split_ws(v@),
{
    let mut out: Vec<Vec<char>> = Vec::new();
    let mut cur: Vec<char> = Vec::new();
    let mut i: usize = 0;
    while i < v.len()
        invariant
            i <= v.len(),
            cur@.len() > 0 <==> (i > 0 && !is_ws(v@[i - 1])),
            cur@.len() == 0 ==> views(out@) == split_ws(v@.take(i as int)),
            cur@.len() > 0 ==> views(out@).push(cur@) == split_ws(v@.take(i as int)),
        decreases v.len() - i,
    {
        let c = v[i];
        let ghost pre = v@.take(i as int);
        let ghost post = v@.take(i + 1);
        assert(post.drop_last() =~= pre);
        assert(post.last() == c);
        if is_whitespace(c) {
            if cur.len() > 0 {
                let done = cur;
                out.push(done);
                cur = Vec::new();
                assert(views(out@) =~= views(out@.drop_last()).push(done@));
            }
        } else {
            if cur.len() > 0 {
                cur.push(c);
                assert(post[post.len() - 2] == v@[i - 1]);
            } else {
                cur.push(c);
                assert(cur@ =~= seq![c]);
            }
        }
        i = i + 1;
    }
    assert(v@.take(v.len() as int) =~= v@);
    if cur.len() > 0 {
        let done = cur;
        out.push(done);
        assert(views(out@) =~= views(out@.drop_last()).push(done@));
    }
    out
}

/// The pieces of `ws` with `sep` between each two neighbours.
pub fn join_chars(ws: &Vec<Vec<char>>, sep: &Vec<char>) -> (r: Vec<char>)
    ensures
        r@ == join(views(ws@), sep@),
{
    let mut r: Vec<char> = Vec::new();
    let mut i: usize = 0;
    while i < ws.len()
        invariant
            i <= ws.len(),
            r@ == join(views(ws@).take(i as int), sep@),
        decreases ws.len() - i,
    {
        let ghost pre = views(ws@).take(i as int);
        let ghost post = views(ws@).take(i + 1);
        assert(post.drop_last() =~= pre);
        if i > 0 {
            append_chars(&mut r, sep);
        } else {
            assert(post =~= seq![ws@[0]@]);
        }
        append_chars(&mut r, &ws[i]);
        i = i + 1;
    }
    assert(views(ws@).take(ws.len() as int) =~= views(ws@));
    r
}

/// The words of `v` joined by single spaces.
pub fn squeeze_chars(v: &Vec<char>) -> (r: Vec<char>)
    ensures
        r@ == squeeze_ws(v@),
{
    let ws = split_words(v);
    let mut sep: Vec<char> = Vec::new();
    sep.push(' ');
    assert(sep@ =~= space());
    join_chars(&ws, &sep)
}

// ---------------------------------------------------------------------------
// Substrings
// ---------------------------------------------------------------------------

/// Whether `p` occurs in `s` at position `i`.
pub open spec fn occurs_at(s: Seq<char>, p: Seq<char>, i: int) -> bool {
    0 <= i && i + p.len() <= s.len() && s.subrange(i, i + p.len()) == p
}

/// Whether `p` occurs somewhere in `s`, as `str::contains` decides it.
pub open spec fn contains_sub(s: Seq<char>, p: Seq<char>) -> bool {
    exists|i: int| #[trigger] occurs_at(s, p, i)
}

/// Whether `p` occurs in `s` at position `i`.
pub fn matches_at(s: &Vec<char>, p: &Vec<char>, i: usize) -> (b: bool)
    ensures
        b == occurs_at(s@, p@, i as int),
{
    if i > s.len() || p.len() > s.len() - i {
        return false;
    }
    let mut j: usize = 0;
    while j < p.len()
        invariant
            j <= p.len(),
            i + p.len() <= s.len(),
            forall|k: int| 0 <= k < j ==> s@[i + k] == p@[k],
        decreases p.len() - j,
    {
        if s[i + j] != p[j] {
            assert(s@.subrange(i as int, i + p.len())[j as int] != p@[j as int]);
            return false;
        }
        j = j + 1;
    }
    assert(s@.subrange(i as int, i + p.len()) =~= p@);
    true
}

/// Whether `p` occurs somewhere in `s`.
pub fn contains_chars(s: &Vec<char>, p: &Vec<char>) -> (b: bool)
    ensures
        b == contains_sub(s@, p@),
{
    if p.len() > s.len() {
        return false;
    }
    let mut i: usize = 0;
    let last = s.len() - p.len();
    while i <= last
        invariant
            p.len() <= s.len(),
            last == s.len() - p.len(),
            i <= last + 1,
            forall|j: int| 0 <= j < i ==> !occurs_at(s@, p@, j),
        decreases s.len() + 1 - i,
    {
        if matches_at(s, p, i) {
            return true;
        }
        if i == last {
            assert forall|j: int| !occurs_at(s@, p@, j) by {
                if 0 <= j <= i {
                }
            }
            return false;
        }
        i = i + 1;
    }
    assert forall|j: int| !occurs_at(s@, p@, j) by {
        if 0 <= j < i {
        }
    }
    false
}

/// Whether the literal `p` occurs somewhere in `s`.
pub fn contains_str(s: &Vec<char>, p: &str) -> (b: bool)
    ensures
        b == contains_sub(s@, p@),
{
    let pv = to_chars(p);
    contains_chars(s, &pv)
}

// ---------------------------------------------------------------------------
// Splitting what was joined
// ---------------------------------------------------------------------------

/// A word as `split_ws` yields it: non-empty, without white space.
pub open spec fn is_word(w: Seq<char>) -> bool {
    w.len() > 0 && forall|i: int| 0 <= i < w.len() ==> !is_ws(#[trigger] w[i])
}

/// Every piece of `split_ws(s)` is a word.
pub proof fn lemma_split_ws_are_words(s: Seq<char>)
    ensures
        forall|i: int| 0 <= i < split_ws(s).len() ==> is_word(#[trigger] split_ws(s)[i]),
    decreases s.len(),
{
    if s.len() > 0 {
        let prev = split_ws(s.drop_last());
        lemma_split_ws_are_words(s.drop_last());
        let c = s.last();
        if is_ws(c) {
        } else if s.len() >= 2 && !is_ws(s[s.len() - 2]) {
            lemma_split_ws_last_word(s.drop_last());
            let r = prev.update(prev.len() - 1, prev.last().push(c));
            assert forall|i: int| 0 <= i < r.len() implies is_word(#[trigger] r[i]) by {
                if i < prev.len() - 1 {
                    assert(r[i] == prev[i]);
                } else {
                    assert(is_word(prev[prev.len() - 1]));
                    assert forall|j: int| 0 <= j < r[i].len() implies !is_ws(#[trigger] r[i][j]) by {
                        if j < prev.last().len() {
                            assert(r[i][j] == prev.last()[j]);
                        }
                    }
                }
            }
        } else {
            let r = prev.push(seq![c]);
            assert forall|i: int| 0 <= i < r.len() implies is_word(#[trigger] r[i]) by {
                if i < prev.len() {
                    assert(r[i] == prev[i]);
                }
            }
        }
    }
}

/// Splitting where `x` ends, when `x` ends in white space (or is empty) or `y` starts
/// with it, splits the two parts apart.
pub proof fn lemma_split_ws_concat(x: Seq<char>, y: Seq<char>)
    requires
        x.len() == 0 || is_ws(x.last()) || y.len() == 0 || is_ws(y[0]),
    ensures
        split_ws(x + y) == split_ws(x) + split_ws(y),
    decreases y.len(),
{
    if y.len() == 0 {
        assert(x + y =~= x);
        assert(split_ws(x) + split_ws(y) =~= split_ws(x));
    } else {
        let y1 = y.drop_last();
        let c = y.last();
        assert((x + y).drop_last() =~= x + y1);
        assert((x + y).last() == c);
        if y1.len() == 0 {
            assert(x + y1 =~= x);
            assert(split_ws(y1) =~= Seq::<Seq<char>>::empty());
            assert(split_ws(x) + split_ws(y1) =~= split_ws(x));
            if is_ws(c) {
                assert(split_ws(y) =~= Seq::<Seq<char>>::empty());
                assert(split_ws(x) + split_ws(y) =~= split_ws(x));
            } else {
                assert(y.len() == 1);
                assert(split_ws(y) =~= seq![seq![c]]);
                if x.len() > 0 {
                    assert((x + y)[(x + y).len() - 2] == x.last());
                }
                assert(split_ws(x + y) =~= split_ws(x).push(seq![c]));
            }
        } else {
            lemma_split_ws_concat(x, y1);
            assert((x + y)[(x + y).len() - 2] == y1.last());
            if is_ws(c) {
            } else if !is_ws(y1.last()) {
                lemma_split_ws_last_word(y1);
                let a = split_ws(x);
                let b = split_ws(y1);
                assert((a + b).update((a + b).len() - 1, (a + b).last().push(c)) =~= a + b.update(
                    b.len() - 1,
                    b.last().push(c),
                ));
                assert(y.len() >= 2 && y[y.len() - 2] == y1.last());
            } else {
                assert(y[y.len() - 2] == y1.last());
                assert((split_ws(x) + split_ws(y1)).push(seq![c]) =~= split_ws(x) + split_ws(
                    y1,
                ).push(seq![c]));
            }
        }
    }
}

/// A word splits into itself.
pub proof fn lemma_split_ws_word(w: Seq<char>)
    requires
        is_word(w),
    ensures
        split_ws(w) == seq![w],
    decreases w.len(),
{
    if w.len() == 1 {
        assert(w.drop_last() =~= Seq::<char>::empty());
        assert(seq![w.last()] =~= w);
        assert(!is_ws(w[0]));
        assert(split_ws(w.drop_last()) =~= Seq::<Seq<char>>::empty());
        assert(Seq::<Seq<char>>::empty().push(seq![w.last()]) =~= seq![w]);
    } else {
        let w1 = w.drop_last();
        assert(is_word(w1)) by {
            assert forall|i: int| 0 <= i < w1.len() implies !is_ws(#[trigger] w1[i]) by {
                assert(w1[i] == w[i]);
            }
        }
        lemma_split_ws_word(w1);
        assert(w[w.len() - 2] == w1.last());
        assert(!is_ws(w[w.len() - 1]));
        assert(w1.push(w.last()) =~= w);
        assert(seq![w1].update(0, w1.push(w.last())) =~= seq![w]);
    }
}

/// Words joined by single spaces split back into the same words.
pub proof fn lemma_split_join(ws: Seq<Seq<char>>)
    requires
        forall|i: int| 0 <= i < ws.len() ==> is_word(#[trigger] ws[i]),
    ensures
        split_ws(join(ws, space())) == ws,
    decreases ws.len(),
{
    if ws.len() == 0 {
        assert(split_ws(Seq::<char>::empty()) =~= ws);
    } else if ws.len() == 1 {
        lemma_split_ws_word(ws[0]);
        assert(seq![ws[0]] =~= ws);
    } else {
        let w1 = ws.drop_last();
        assert forall|i: int| 0 <= i < w1.len() implies is_word(#[trigger] w1[i]) by {
            assert(w1[i] == ws[i]);
        }
        lemma_split_join(w1);
        let j = join(w1, space());
        let last = ws.last();
        assert(is_word(ws[ws.len() - 1]));
        assert(is_ws(' '));
        assert((j + space()).drop_last() =~= j);
        assert(split_ws(j + space()) == split_ws(j));
        lemma_split_ws_concat(j + space(), last);
        lemma_split_ws_word(last);
        assert(join(ws, space()) =~= (j + space()) + last);
        assert(w1 + seq![last] =~= ws);
    }
}

/// A text whose trimmed form is empty is all white space, and has no words.
pub proof fn lemma_blank_has_no_words(s: Seq<char>)
    requires
        trim_ws(s).len() == 0,
    ensures
        split_ws(s) == Seq::<Seq<char>>::empty(),
        s.len() == 0 || is_ws(s.last()),
{
    lemma_trim_start_all(s);
    lemma_all_ws_no_words(s);
}

proof fn lemma_trim_start_all(s: Seq<char>)
    requires
        trim_ws(s).len() == 0,
    ensures
        forall|i: int| 0 <= i < s.len() ==> is_ws(#[trigger] s[i]),
{
    let k = trim_start(s, TrimMode::Whitespace);
    lemma_trim_start_is_suffix(s, TrimMode::Whitespace);
    lemma_trim_end_empty(k, TrimMode::Whitespace);
}

proof fn lemma_trim_start_is_suffix(s: Seq<char>, mode: TrimMode)
    ensures
        exists|n: int|
            0 <= n <= s.len() && trim_start(s, mode) == s.skip(n) && (forall|i: int|
                0 <= i < n ==> dropped(mode, #[trigger] s[i])),
        trim_start(s, mode).len() > 0 ==> !dropped(mode, trim_start(s, mode)[0]),
    decreases s.len(),
{
    if s.len() > 0 && dropped(mode, s[0]) {
        lemma_trim_start_is_suffix(s.drop_first(), mode);
        let n = choose|n: int|
            0 <= n <= s.drop_first().len() && trim_start(s.drop_first(), mode) == s.drop_first().skip(
                n,
            ) && (forall|i: int| 0 <= i < n ==> dropped(mode, #[trigger] s.drop_first()[i]));
        assert(s.drop_first().skip(n) =~= s.skip(n + 1));
        assert forall|i: int| 0 <= i < n + 1 implies dropped(mode, #[trigger] s[i]) by {
            if i > 0 {
                assert(s[i] == s.drop_first()[i - 1]);
            }
        }
    } else {
        assert(s.skip(0) =~= s);
    }
}

proof fn lemma_trim_end_empty(s: Seq<char>, mode: TrimMode)
    requires
        trim_end(s, mode).len() == 0,
    ensures
        forall|i: int| 0 <= i < s.len() ==> dropped(mode, #[trigger] s[i]),
    decreases s.len(),
{
    if s.len() > 0 {
        if dropped(mode, s.last()) {
            lemma_trim_end_empty(s.drop_last(), mode);
            assert forall|i: int| 0 <= i < s.len() implies dropped(mode, #[trigger] s[i]) by {
                if i < s.len() - 1 {
                    assert(s[i] == s.drop_last()[i]);
                }
            }
        }
    }
}

proof fn lemma_all_ws_no_words(s: Seq<char>)
    requires
        forall|i: int| 0 <= i < s.len() ==> is_ws(#[trigger] s[i]),
    ensures
        split_ws(s) == Seq::<Seq<char>>::empty(),
    decreases s.len(),
{
    if s.len() > 0 {
        assert forall|i: int| 0 <= i < s.drop_last().len() implies is_ws(#[trigger] s.drop_last()[i]) by {
            assert(s.drop_last()[i] == s[i]);
        }
        lemma_all_ws_no_words(s.drop_last());
        assert(is_ws(s[s.len() - 1]));
    }
}

} // verus!
