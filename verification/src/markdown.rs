//! A small Markdown subset rendered as Pango markup.
use vstd::prelude::*;
use crate::text::{append_chars, from_chars, join, join_chars, occurs_at, matches_at, slice_chars, to_chars, views};
use crate::transcript::{split_chars_on, split_on};

verus! {

// ---------------------------------------------------------------------------
// Escaping
// ---------------------------------------------------------------------------

/// The markup for one character: `&`, `<` and `>` become entities.
pub open spec fn escape_char(c: char) -> Seq<char> {
    if c == '&' {
        "&amp;"@
    } else if c == '<' {
        "&lt;"@
    } else if c == '>' {
        "&gt;"@
    } else {
        seq![c]
    }
}

/// `s` with each character replaced by its markup.
pub open spec fn escaped(s: Seq<char>) -> Seq<char>
    decreases s.len(),
{
    if s.len() == 0 {
        seq![]
    } else {
        escaped(s.drop_last()) + escape_char(s.last())
    }
}

/// `input` with `&`, `<` and `>` replaced by the entities `&amp;`, `&lt;` and `&gt;`.
pub fn escape_html(input: &str) -> (r: String)
    ensures
        r@ == escaped(input@),
{
    let v = to_chars(input);
    from_chars(&escape_chars(&v))
}

/// Escaped text holds no `<` and no `>`: whatever the input, it cannot open or close a
/// markup tag.
pub proof fn lemma_escaped_has_no_tags(s: Seq<char>)
    ensures
        forall|i: int|
            0 <= i < escaped(s).len() ==> #[trigger] escaped(s)[i] != '<' && escaped(s)[i] != '>',
    decreases s.len(),
{
    if s.len() > 0 {
        lemma_escaped_has_no_tags(s.drop_last());
        reveal_strlit("&amp;");
        reveal_strlit("&lt;");
        reveal_strlit("&gt;");
        let a = escaped(s.drop_last());
        let b = escape_char(s.last());
        assert forall|i: int| 0 <= i < escaped(s).len() implies #[trigger] escaped(s)[i] != '<'
            && escaped(s)[i] != '>' by {
            if i >= a.len() {
                assert(escaped(s)[i] == b[i - a.len()]);
            } else {
                assert(escaped(s)[i] == a[i]);
            }
        }
    }
}

/// Text without `&`, `<` and `>` is left as it is by escaping.
pub proof fn lemma_escape_plain_text(s: Seq<char>)
    requires
        forall|i: int| 0 <= i < s.len() ==> #[trigger] s[i] != '&' && s[i] != '<' && s[i] != '>',
    ensures
        escaped(s) == s,
    decreases s.len(),
{
    if s.len() > 0 {
        lemma_escape_plain_text(s.drop_last());
        assert(s.drop_last().push(s.last()) =~= s);
    }
}

fn escape_chars(v: &Vec<char>) -> (r: Vec<char>)
    ensures
        r@ == escaped(v@),
{
    let amp = to_chars("&amp;");
    let lt = to_chars("&lt;");
    let gt = to_chars("&gt;");
    let mut r: Vec<char> = Vec::new();
    let mut i: usize = 0;
    while i < v.len()
        invariant
            i <= v.len(),
            amp@ == "&amp;"@,
            lt@ == "&lt;"@,
            gt@ == "&gt;"@,
            r@ == escaped(v@.take(i as int)),
        decreases v.len() - i,
    {
        let c = v[i];
        assert(v@.take(i + 1).drop_last() =~= v@.take(i as int));
        if c == '&' {
            append_chars(&mut r, &amp);
        } else if c == '<' {
            append_chars(&mut r, &lt);
        } else if c == '>' {
            append_chars(&mut r, &gt);
        } else {
            r.push(c);
            assert(r@ =~= escaped(v@.take(i as int)) + seq![c]);
        }
        i = i + 1;
    }
    assert(v@.take(v.len() as int) =~= v@);
    r
}

// ---------------------------------------------------------------------------
// Paired inline markers
// ---------------------------------------------------------------------------

/// The first position at or after `start` where `m` occurs in `s`.
pub open spec fn find_from(s: Seq<char>, m: Seq<char>, start: int) -> Option<int>
    decreases s.len() + 1 - start,
{
    if start < 0 || start + m.len() > s.len() {
        None
    } else if occurs_at(s, m, start) {
        Some(start)
    } else {
        find_from(s, m, start + 1)
    }
}

pub proof fn lemma_find_from(s: Seq<char>, m: Seq<char>, start: int)
    requires
        0 <= start,
    ensures
        match find_from(s, m, start) {
            Some(r) => start <= r && r + m.len() <= s.len() && occurs_at(s, m, r) && forall|k: int|
                start <= k < r ==> !#[trigger] occurs_at(s, m, k),
            None => forall|k: int| start <= k ==> !#[trigger] occurs_at(s, m, k),
        },
    decreases s.len() + 1 - start,
{
    if start + m.len() > s.len() {
    } else if occurs_at(s, m, start) {
    } else {
        lemma_find_from(s, m, start + 1);
    }
}

/// From `pos` on, each pair of occurrences of `m` (scanning left to right) is replaced by
/// `open`, the text between them, and `close`; an unpaired marker stays as it is.
pub open spec fn pair_markers(
    s: Seq<char>,
    m: Seq<char>,
    open: Seq<char>,
    close: Seq<char>,
    pos: int,
) -> Seq<char>
    decreases s.len() - pos,
{
    if m.len() == 0 || pos < 0 || pos > s.len() {
        seq![]
    } else {
        match find_from(s, m, pos) {
            None => s.subrange(pos, s.len() as int),
            Some(i) => match find_from(s, m, i + m.len()) {
                None => s.subrange(pos, s.len() as int),
                Some(j) => {
                    proof {
                        lemma_find_from(s, m, pos);
                        lemma_find_from(s, m, i + m.len());
                    }
                    s.subrange(pos, i) + open + s.subrange(i + m.len(), j) + close + pair_markers(
                        s,
                        m,
                        open,
                        close,
                        j + m.len(),
                    )
                },
            },
        }
    }
}

fn find_chars_from(s: &Vec<char>, m: &Vec<char>, start: usize) -> (r: Option<usize>)
    ensures
        r matches Some(i) ==> find_from(s@, m@, start as int) == Some(i as int),
        r is None ==> find_from(s@, m@, start as int) is None,
{
    proof {
        lemma_find_from(s@, m@, start as int);
    }
    if m.len() > s.len() || start > s.len() - m.len() {
        return None;
    }
    let last = s.len() - m.len();
    let mut i = start;
    while i <= last
        invariant
            start <= i,
            last == s.len() - m.len(),
            i <= last + 1,
            find_from(s@, m@, start as int) == find_from(s@, m@, i as int),
        decreases last + 1 - i,
    {
        if matches_at(s, m, i) {
            return Some(i);
        }
        if i == last {
            assert(find_from(s@, m@, i + 1) is None);
            return None;
        }
        i = i + 1;
    }
    None
}

/// `s` with each pair of markers `m` replaced by `open` ... `close`.
fn pair_chars(s: &Vec<char>, m: &Vec<char>, open: &Vec<char>, close: &Vec<char>) -> (r: Vec<char>)
    requires
        m.len() > 0,
    ensures
        r@ == pair_markers(s@, m@, open@, close@, 0),
{
    let mut out: Vec<char> = Vec::new();
    let mut pos: usize = 0;
    let mut done = false;
    while !done
        invariant
            m.len() > 0,
            pos <= s.len(),
            !done ==> out@ + pair_markers(s@, m@, open@, close@, pos as int) == pair_markers(
                s@,
                m@,
                open@,
                close@,
                0,
            ),
            done ==> out@ == pair_markers(s@, m@, open@, close@, 0),
        decreases s.len() - pos + (if done { 0int } else { 1int }),
    {
        let ghost rest = pair_markers(s@, m@, open@, close@, pos as int);
        match find_chars_from(s, m, pos) {
            None => {
                let tail = slice_chars(s, pos, s.len());
                append_chars(&mut out, &tail);
                done = true;
            },
            Some(i) => {
                proof {
                    lemma_find_from(s@, m@, pos as int);
                }
                match find_chars_from(s, m, i + m.len()) {
                    None => {
                        let tail = slice_chars(s, pos, s.len());
                        append_chars(&mut out, &tail);
                        done = true;
                    },
                    Some(j) => {
                        proof {
                            lemma_find_from(s@, m@, i + m.len());
                        }
                        let a = slice_chars(s, pos, i);
                        let inner = slice_chars(s, i + m.len(), j);
                        append_chars(&mut out, &a);
                        append_chars(&mut out, open);
                        append_chars(&mut out, &inner);
                        append_chars(&mut out, close);
                        assert(rest == s@.subrange(pos as int, i as int) + open@ + s@.subrange(
                            i + m.len(),
                            j as int,
                        ) + close@ + pair_markers(s@, m@, open@, close@, j + m.len()));
                        pos = j + m.len();
                    },
                }
            },
        }
    }
    out
}

// ---------------------------------------------------------------------------
// Lines
// ---------------------------------------------------------------------------

/// A line without one trailing carriage return.
pub open spec fn strip_cr(l: Seq<char>) -> Seq<char> {
    if l.len() > 0 && l.last() == '\r' {
        l.drop_last()
    } else {
        l
    }
}

/// The lines of `s`, as `str::lines` yields them: pieces between line feeds, a carriage
/// return before a line feed dropped, and no final empty piece.
pub open spec fn lines(s: Seq<char>) -> Seq<Seq<char>> {
    let p = split_on(s, '\n');
    let terminated = p.drop_last().map_values(|l: Seq<char>| strip_cr(l));
    if p.last().len() > 0 {
        terminated.push(p.last())
    } else {
        terminated
    }
}

/// Whether `s` starts with `p`.
pub open spec fn starts_with(s: Seq<char>, p: Seq<char>) -> bool {
    p.len() <= s.len() && s.take(p.len() as int) == p
}

/// Bold, italic and code spans, in that order, on escaped text.
pub open spec fn inline_markup(s: Seq<char>) -> Seq<char> {
    let b = pair_markers(s, "**"@, "<b>"@, "</b>"@, 0);
    let i = pair_markers(b, "*"@, "<i>"@, "</i>"@, 0);
    pair_markers(i, "`"@, "<tt>"@, "</tt>"@, 0)
}

/// The markup for one line outside a code block.
pub open spec fn render_line(l: Seq<char>) -> Seq<char> {
    if starts_with(l, "### "@) {
        "<span weight=\"bold\">"@ + escaped(l.skip(4)) + "</span>"@
    } else if starts_with(l, "## "@) {
        "<span size=\"large\" weight=\"bold\">"@ + escaped(l.skip(3)) + "</span>"@
    } else if starts_with(l, "# "@) {
        "<span size=\"x-large\" weight=\"bold\">"@ + escaped(l.skip(2)) + "</span>"@
    } else if starts_with(l, "- "@) {
        "  • "@ + escaped(l.skip(2))
    } else {
        inline_markup(escaped(l))
    }
}

/// The markup for one line inside a code block.
pub open spec fn render_code_line(l: Seq<char>) -> Seq<char> {
    "<tt>"@ + escaped(l) + "</tt>"@
}

/// The rendered lines after the first `n` input lines, and whether a code block is open:
/// a line starting with three backticks opens or closes a code block and renders nothing.
pub open spec fn render_pass(ls: Seq<Seq<char>>, n: int) -> (Seq<Seq<char>>, bool)
    decreases n,
{
    if n <= 0 {
        (seq![], false)
    } else {
        let (out, in_code) = render_pass(ls, n - 1);
        let l = ls[n - 1];
        if starts_with(l, "```"@) {
            (out, !in_code)
        } else if in_code {
            (out.push(render_code_line(l)), in_code)
        } else {
            (out.push(render_line(l)), in_code)
        }
    }
}

/// The Pango markup for `input`: its rendered lines joined by line feeds.
pub open spec fn pango_markup(input: Seq<char>) -> Seq<char> {
    let ls = lines(input);
    join(render_pass(ls, ls.len() as int).0, seq!['\n'])
}

proof fn lemma_single_line(l: Seq<char>)
    requires
        l.len() > 0,
        forall|i: int| 0 <= i < l.len() ==> #[trigger] l[i] != '\n',
        !starts_with(l, "```"@),
    ensures
        pango_markup(l) == render_line(l),
{
    crate::transcript::lemma_split_on_single(l, '\n');
    let p = split_on(l, '\n');
    assert(p.drop_last().map_values(|x: Seq<char>| strip_cr(x)) =~= Seq::<Seq<char>>::empty());
    assert(lines(l) =~= seq![l]);
    let ls = lines(l);
    assert(render_pass(ls, 0) == (Seq::<Seq<char>>::empty(), false));
    assert(render_pass(ls, 1).0 =~= seq![render_line(l)]);
}

/// A single heading or bullet line renders as its markup around its text, escaped: the
/// text after `### `, `## ` or `# ` sits in a bold span (large and x-large for the two
/// bigger levels), the text after `- ` follows a bullet; so no `&`, `<` or `>` of the text
/// reaches the markup unescaped.
pub proof fn lemma_heading_and_bullet_lines_escaped(l: Seq<char>)
    requires
        forall|i: int| 0 <= i < l.len() ==> #[trigger] l[i] != '\n',
    ensures
        starts_with(l, "### "@) ==> pango_markup(l) == "<span weight=\"bold\">"@ + escaped(l.skip(4))
            + "</span>"@,
        starts_with(l, "## "@) ==> pango_markup(l) == "<span size=\"large\" weight=\"bold\">"@
            + escaped(l.skip(3)) + "</span>"@,
        starts_with(l, "# "@) ==> pango_markup(l) == "<span size=\"x-large\" weight=\"bold\">"@
            + escaped(l.skip(2)) + "</span>"@,
        starts_with(l, "- "@) ==> pango_markup(l) == "  • "@ + escaped(l.skip(2)),
{
    reveal_strlit("### ");
    reveal_strlit("## ");
    reveal_strlit("# ");
    reveal_strlit("- ");
    reveal_strlit("```");
    if starts_with(l, "### "@) || starts_with(l, "## "@) || starts_with(l, "# "@) || starts_with(
        l,
        "- "@,
    ) {
        assert(l.len() >= 2);
        if starts_with(l, "```"@) {
            assert(l.take(3)[0] == l[0]);
            assert(l.take(3)[1] == l[1]);
            if starts_with(l, "- "@) {
                assert(l.take(2)[0] == l[0]);
            } else if starts_with(l, "# "@) {
                assert(l.take(2)[1] == l[1]);
            } else if starts_with(l, "## "@) {
                assert(l.take(3)[2] == l[2]);
                assert(l.take(3)[1] == l[1]);
            } else {
                assert(l.take(4)[1] == l[1]);
            }
        }
        lemma_single_line(l);
        if starts_with(l, "## "@) {
            assert(l.take(3)[2] == l[2]);
            if starts_with(l, "### "@) {
                assert(l.take(4)[2] == l[2]);
            }
        }
        if starts_with(l, "# "@) {
            assert(l.take(2)[1] == l[1]);
            if starts_with(l, "### "@) {
                assert(l.take(4)[1] == l[1]);
            }
            if starts_with(l, "## "@) {
                assert(l.take(3)[1] == l[1]);
            }
        }
        if starts_with(l, "- "@) {
            assert(l.take(2)[0] == l[0]);
            if starts_with(l, "### "@) {
                assert(l.take(4)[0] == l[0]);
            }
            if starts_with(l, "## "@) {
                assert(l.take(3)[0] == l[0]);
            }
            if starts_with(l, "# "@) {
                assert(l.take(2)[0] == l[0]);
            }
        }
    }
}

fn starts_with_chars(l: &Vec<char>, p: &str) -> (b: bool)
    ensures
        b == starts_with(l@, p@),
{
    let pv = to_chars(p);
    if pv.len() > l.len() {
        return false;
    }
    let r = matches_at(l, &pv, 0);
    assert(r == starts_with(l@, p@)) by {
        assert(l@.subrange(0, pv@.len() as int) =~= l@.take(pv@.len() as int));
    }
    r
}

fn wrap(pre: &str, body: &Vec<char>, post: &str) -> (r: Vec<char>)
    ensures
        r@ == pre@ + body@ + post@,
{
    let mut r = to_chars(pre);
    append_chars(&mut r, body);
    let p = to_chars(post);
    append_chars(&mut r, &p);
    r
}

fn render_line_chars(l: &Vec<char>) -> (r: Vec<char>)
    ensures
        r@ == render_line(l@),
{
    proof {
        reveal_strlit("### ");
        reveal_strlit("## ");
        reveal_strlit("# ");
        reveal_strlit("- ");
        reveal_strlit("**");
        reveal_strlit("*");
        reveal_strlit("`");
    }
    if starts_with_chars(l, "### ") {
        let rest = slice_chars(l, 4, l.len());
        assert(rest@ =~= l@.skip(4));
        wrap("<span weight=\"bold\">", &escape_chars(&rest), "</span>")
    } else if starts_with_chars(l, "## ") {
        let rest = slice_chars(l, 3, l.len());
        assert(rest@ =~= l@.skip(3));
        wrap("<span size=\"large\" weight=\"bold\">", &escape_chars(&rest), "</span>")
    } else if starts_with_chars(l, "# ") {
        let rest = slice_chars(l, 2, l.len());
        assert(rest@ =~= l@.skip(2));
        wrap("<span size=\"x-large\" weight=\"bold\">", &escape_chars(&rest), "</span>")
    } else if starts_with_chars(l, "- ") {
        let rest = slice_chars(l, 2, l.len());
        assert(rest@ =~= l@.skip(2));
        let mut r = to_chars("  • ");
        append_chars(&mut r, &escape_chars(&rest));
        r
    } else {
        let e = escape_chars(l);
        let bold = pair_chars(&e, &to_chars("**"), &to_chars("<b>"), &to_chars("</b>"));
        let ital = pair_chars(&bold, &to_chars("*"), &to_chars("<i>"), &to_chars("</i>"));
        let code = pair_chars(&ital, &to_chars("`"), &to_chars("<tt>"), &to_chars("</tt>"));
        assert(code@ == inline_markup(escaped(l@)));
        code
    }
}

/// Renders a small Markdown subset as Pango markup: fenced code blocks become monospace
/// lines, `#`/`##`/`###` lines become headings, `- ` lines become bullets, and `**`, `*`
/// and backtick pairs become bold, italic and monospace spans; `&`, `<` and `>` are
/// escaped.
pub fn markdown_to_pango(input: &str) -> (r: String)
    ensures
        r@ == pango_markup(input@),
{
    let v = to_chars(input);
    let ls = lines_chars(&v);
    let ghost lv = lines(v@);
    let mut out: Vec<Vec<char>> = Vec::new();
    let mut in_code = false;
    let mut i: usize = 0;
    while i < ls.len()
        invariant
            i <= ls.len(),
            views(ls@) == lv,
            (views(out@), in_code) == render_pass(lv, i as int),
        decreases ls.len() - i,
    {
        let line = &ls[i];
        assert(line@ == lv[i as int]);
        let ghost before = views(out@);
        if starts_with_chars(line, "```") {
            in_code = !in_code;
        } else if in_code {
            let r = wrap("<tt>", &escape_chars(line), "</tt>");
            out.push(r);
            assert(views(out@) =~= before.push(render_code_line(lv[i as int])));
        } else {
            let r = render_line_chars(line);
            out.push(r);
            assert(views(out@) =~= before.push(render_line(lv[i as int])));
        }
        i = i + 1;
    }
    let mut sep: Vec<char> = Vec::new();
    sep.push('\n');
    assert(sep@ =~= seq!['\n']);
    from_chars(&join_chars(&out, &sep))
}

/// The lines of `v`, as `str::lines` yields them.
pub fn lines_chars(v: &Vec<char>) -> (ls: Vec<Vec<char>>)
    ensures
        views(ls@) == lines(v@),
{
    let pieces = split_chars_on(v, '\n');
    let ghost p = split_on(v@, '\n');
    let ghost lv = lines(v@);
    proof {
        crate::transcript::lemma_split_on_nonempty(v@, '\n');
    }
    let n = pieces.len();
    let last_nonempty = pieces[n - 1].len() > 0;
    let count = if last_nonempty {
        n
    } else {
        n - 1
    };
    assert(lv.len() == count);
    let mut ls: Vec<Vec<char>> = Vec::new();
    let mut i: usize = 0;
    while i < count
        invariant
            i <= count,
            count <= n,
            n == pieces.len(),
            views(pieces@) == p,
            lv == lines(v@),
            p == split_on(v@, '\n'),
            lv.len() == count,
            views(ls@) == lv.take(i as int),
        decreases count - i,
    {
        let piece = &pieces[i];
        let line = if i + 1 < n && piece.len() > 0 && piece[piece.len() - 1] == '\r' {
            slice_chars(piece, 0, piece.len() - 1)
        } else {
            piece.clone()
        };
        assert(p[i as int] == pieces@[i as int]@);
        assert(line@ == lv[i as int]) by {
            if i + 1 < n {
                assert(lv[i as int] == strip_cr(p[i as int]));
            } else {
                assert(lv[i as int] == p.last());
            }
        }
        let ghost before = views(ls@);
        ls.push(line);
        assert(views(ls@) =~= before.push(lv[i as int]));
        assert(lv.take(i + 1) =~= lv.take(i as int).push(lv[i as int]));
        i = i + 1;
    }
    assert(lv.take(count as int) =~= lv);
    ls
}

} // verus!
