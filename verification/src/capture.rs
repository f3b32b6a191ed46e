//! The region string handed to the screenshot tool.
use vstd::prelude::*;
use crate::api::opt_view;
use crate::audio::{byte_len, lemma_byte_len_step, utf8_width};
use crate::text::{from_chars, to_chars, trim_chars, trim_ws, TrimMode};
use vstd::utf8::encode_scalar;

verus! {

/// The decimal digits of `n`, most significant first.
pub open spec fn digits(n: nat) -> Seq<char>
    decreases n,
{
    if n < 10 {
        seq![(48 + n) as char]
    } else {
        digits(n / 10).push((48 + n % 10) as char)
    }
}

/// `n` in decimal, with a leading `-` when negative.
pub open spec fn decimal(n: int) -> Seq<char> {
    if n < 0 {
        seq!['-'] + digits((-n) as nat)
    } else {
        digits(n as nat)
    }
}

fn push_digits(s: &mut String, n: u64)
    ensures
        final(s)@ == old(s)@ + digits(n as nat),
    decreases n,
{
    if n >= 10 {
        push_digits(s, n / 10);
    }
    let d = (n % 10) as u8;
    s.push((48 + d) as char);
}

fn push_decimal(s: &mut String, n: i64)
    ensures
        final(s)@ == old(s)@ + decimal(n as int),
{
    if n < 0 {
        s.push('-');
        let m: u64 = if n == i64::MIN {
            0x8000_0000_0000_0000
        } else {
            (-n) as u64
        };
        push_digits(s, m);
    } else {
        push_digits(s, n as u64);
    }
}

/// The region `x,y wxh` of a window at `(x, y)` of size `w` by `h`, as `grim -g` takes it.
pub fn window_geometry(x: i64, y: i64, w: i64, h: i64) -> (g: String)
    ensures
        g@ == decimal(x as int) + seq![','] + decimal(y as int) + seq![' '] + decimal(w as int)
            + seq!['x'] + decimal(h as int),
{
    let mut g = String::new();
    push_decimal(&mut g, x);
    g.push(',');
    push_decimal(&mut g, y);
    g.push(' ');
    push_decimal(&mut g, w);
    g.push('x');
    push_decimal(&mut g, h);
    assert(g@ =~= decimal(x as int) + seq![','] + decimal(y as int) + seq![' '] + decimal(w as int)
        + seq!['x'] + decimal(h as int));
    g
}

/// What `serde_json` finds under `key` when it parses `text` as a JSON value: `None` when
/// the text is not JSON or holds no array there, otherwise each element as an `i64` when
/// it is one.
pub uninterp spec fn json_int_array(text: Seq<char>, key: Seq<char>) -> Option<Seq<Option<i64>>>;

/// The elements of an optional vector.
pub open spec fn opt_seq_view(r: Option<Vec<Option<i64>>>) -> Option<Seq<Option<i64>>> {
    match r {
        Some(v) => Some(v@),
        None => None,
    }
}

/// Parses `text` with `serde_json::from_str` into a `serde_json::Value`, reads the array
/// under `key` with `Value::get` and `Value::as_array`, and each element with
/// `Value::as_i64`. The contract claims only that the answer is the function of the text
/// and key that `json_int_array` names.
#[verifier::external_body]
fn json_i64_array(text: &str, key: &str) -> (r: Option<Vec<Option<i64>>>)
    ensures
        opt_seq_view(r) == json_int_array(text@, key@),
{
    match serde_json::from_str::<serde_json::Value>(text) {
        Ok(value) => value
            .get(key)
            .and_then(|a| a.as_array())
            .map(|a| a.iter().map(|e| e.as_i64()).collect()),
        Err(_) => None,
    }
}

/// A coordinate, with anything that is not an integer taken as 0.
pub open spec fn coordinate(c: Option<i64>) -> i64 {
    match c {
        Some(x) => x,
        None => 0,
    }
}

/// The region `x,y wxh` as `grim -g` takes it.
pub open spec fn geometry_text(x: i64, y: i64, w: i64, h: i64) -> Seq<char> {
    decimal(x as int) + seq![','] + decimal(y as int) + seq![' '] + decimal(w as int) + seq!['x']
        + decimal(h as int)
}

/// The region given by the `at` and `size` arrays: from the first two numbers of each;
/// `None` when either array is missing or shorter than two.
pub open spec fn region_of_arrays(at: Option<Seq<Option<i64>>>, size: Option<Seq<Option<i64>>>) -> Option<Seq<char>> {
    match (at, size) {
        (Some(at), Some(size)) => if at.len() >= 2 && size.len() >= 2 {
            Some(geometry_text(coordinate(at[0]), coordinate(at[1]), coordinate(size[0]), coordinate(size[1])))
        } else {
            None
        },
        _ => None,
    }
}

/// The region of the active window in the JSON that `hyprctl -j activewindow` prints:
/// from the first two numbers under `at` and under `size`; `None` when the text is not
/// JSON or either array is missing or shorter than two.
pub open spec fn active_window_region(hyprctl_json: Seq<char>) -> Option<Seq<char>> {
    region_of_arrays(json_int_array(hyprctl_json, "at"@), json_int_array(hyprctl_json, "size"@))
}

fn coordinate_at(v: &Vec<Option<i64>>, i: usize) -> (x: i64)
    requires
        i < v.len(),
    ensures
        x == coordinate(v@[i as int]),
{
    match v[i] {
        Some(x) => x,
        None => 0,
    }
}

/// The region, as `grim -g` takes it, given by parsed `at` and `size` arrays.
pub fn region_from_arrays(at: &Option<Vec<Option<i64>>>, size: &Option<Vec<Option<i64>>>) -> (r: Option<String>)
    ensures
        opt_view(r) == region_of_arrays(opt_seq_view(*at), opt_seq_view(*size)),
{
    match (at, size) {
        (Some(at), Some(size)) => {
            if at.len() >= 2 && size.len() >= 2 {
                Some(window_geometry(
                    coordinate_at(at, 0),
                    coordinate_at(at, 1),
                    coordinate_at(size, 0),
                    coordinate_at(size, 1),
                ))
            } else {
                None
            }
        },
        _ => None,
    }
}

/// The region of the active window in the output of `hyprctl -j activewindow`, as
/// `grim -g` takes it.
pub fn active_window_geometry(hyprctl_json: &str) -> (r: Option<String>)
    ensures
        opt_view(r) == active_window_region(hyprctl_json@),
{
    let at = json_i64_array(hyprctl_json, "at");
    let size = json_i64_array(hyprctl_json, "size");
    region_from_arrays(&at, &size)
}

/// The most bytes of recognised screen text that a question carries.
pub const SCREEN_TEXT_BYTES: u128 = 2000;

/// The longest beginning of `s` whose UTF-8 form fits in `max` bytes.
pub open spec fn prefix_within(s: Seq<char>, max: int) -> Seq<char>
    decreases s.len(),
{
    if s.len() == 0 || encode_scalar(s[0] as u32).len() > max {
        seq![]
    } else {
        seq![s[0]] + prefix_within(s.drop_first(), max - encode_scalar(s[0] as u32).len())
    }
}

/// The cut text fits, is how the text begins, is the whole text when that fits, and stops
/// only where one more character would not fit.
pub proof fn lemma_prefix_within(s: Seq<char>, max: int)
    requires
        max >= 0,
    ensures
        byte_len(prefix_within(s, max)) <= max,
        prefix_within(s, max).len() <= s.len(),
        prefix_within(s, max) == s.take(prefix_within(s, max).len() as int),
        byte_len(s) <= max ==> prefix_within(s, max) == s,
        prefix_within(s, max).len() < s.len() ==> byte_len(
            s.take(prefix_within(s, max).len() + 1int),
        ) > max,
    decreases s.len(),
{
    let p = prefix_within(s, max);
    if s.len() == 0 {
        assert(byte_len(p) == 0);
    } else {
        lemma_byte_len_step(s);
        let w = encode_scalar(s[0] as u32).len() as int;
        if w > max {
            assert(byte_len(p) == 0);
            assert(s.take(0) =~= p);
            let one = s.take(1);
            lemma_byte_len_step(one);
            assert(one.drop_first().len() == 0);
            assert(byte_len(one.drop_first()) == 0);
        } else {
            let d = s.drop_first();
            lemma_prefix_within(d, max - w);
            let q = prefix_within(d, max - w);
            lemma_byte_len_step(p);
            assert(p.drop_first() =~= q);
            assert(p =~= s.take(p.len() as int));
            if byte_len(s) <= max {
                assert(q == d);
                assert(p =~= s);
            }
            if p.len() < s.len() {
                let longer = s.take(p.len() + 1int);
                lemma_byte_len_step(longer);
                assert(longer.drop_first() =~= d.take(q.len() + 1int));
            }
        }
    }
}

/// The recognised screen text cut to its first 2000 bytes at a character boundary.
pub fn screen_text_prefix(text: &str) -> (r: String)
    ensures
        r@ == prefix_within(text@, SCREEN_TEXT_BYTES as int),
{
    let v = to_chars(text);
    let mut left: u128 = SCREEN_TEXT_BYTES;
    let mut i: usize = 0;
    assert(v@.skip(0) =~= v@);
    assert(v@.take(0) + prefix_within(v@, left as int) =~= prefix_within(v@, left as int));
    while i < v.len() && utf8_width(v[i]) <= left
        invariant
            i <= v.len(),
            left <= SCREEN_TEXT_BYTES,
            prefix_within(v@, SCREEN_TEXT_BYTES as int) == v@.take(i as int) + prefix_within(
                v@.skip(i as int),
                left as int,
            ),
        decreases v.len() - i,
    {
        let w = utf8_width(v[i]);
        proof {
            let rest = v@.skip(i as int);
            assert(rest[0] == v@[i as int]);
            assert(rest.drop_first() =~= v@.skip(i + 1));
            assert(v@.take(i + 1) =~= v@.take(i as int) + seq![v@[i as int]]);
        }
        left = left - w;
        i = i + 1;
    }
    proof {
        if i < v.len() {
            assert(v@.skip(i as int)[0] == v@[i as int]);
        }
        assert(prefix_within(v@.skip(i as int), left as int) =~= Seq::<char>::empty());
    }
    let t = crate::text::slice_chars(&v, 0, i);
    assert(t@ =~= v@.take(i as int));
    from_chars(&t)
}

/// The system message for a question typed into the overlay: the reference section,
/// then, when the screen shows any text, that text (trimmed) under "Text on screen:",
/// separated from a non-empty reference section by a blank line.
pub open spec fn with_screen_text(context_section: Seq<char>, screen_text: Seq<char>) -> Seq<char> {
    let t = trim_ws(screen_text);
    if t.len() == 0 {
        context_section
    } else {
        context_section + (if context_section.len() > 0 {
            "\n\n"@
        } else {
            Seq::<char>::empty()
        }) + "Text on screen:\n"@ + t
    }
}

/// The system message for a question typed into the overlay.
pub fn overlay_system_message(context_section: &str, screen_text: &str) -> (m: String)
    ensures
        m@ == with_screen_text(context_section@, screen_text@),
{
    let sv = to_chars(screen_text);
    let t = trim_chars(&sv, TrimMode::Whitespace);
    let mut m = context_section.to_owned();
    if t.len() == 0 {
        return m;
    }
    let cv = to_chars(context_section);
    if cv.len() > 0 {
        m.append("\n\n");
    }
    m.append("Text on screen:\n");
    let ts = from_chars(&t);
    m.append(ts.as_str());
    m
}

} // verus!
