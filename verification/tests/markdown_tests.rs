use hyprly::markdown::{escape_html, markdown_to_pango};

#[test]
fn escapes_markup_characters() {
    assert_eq!(escape_html("a & b <c> d"), "a &amp; b &lt;c&gt; d");
    assert_eq!(escape_html("&amp;"), "&amp;amp;");
}

#[test]
fn renders_headings_bullets_and_inline_spans() {
    let out = markdown_to_pango("# Title\n- item & <x>\nplain **bold** and *it* `code`");
    assert_eq!(
        out,
        "<span size=\"x-large\" weight=\"bold\">Title</span>\n  • item &amp; &lt;x&gt;\nplain <b>bold</b> and <i>it</i> <tt>code</tt>"
    );
    assert_eq!(
        markdown_to_pango("## Sub\n### Small"),
        "<span size=\"large\" weight=\"bold\">Sub</span>\n<span weight=\"bold\">Small</span>"
    );
}

#[test]
fn renders_code_blocks_and_line_endings() {
    assert_eq!(
        markdown_to_pango("```\nfn a<T>()\n```\nafter"),
        "<tt>fn a&lt;T&gt;()</tt>\nafter"
    );
    assert_eq!(markdown_to_pango("a\r\nb\n"), "a\nb");
    assert_eq!(markdown_to_pango(""), "");
    assert_eq!(markdown_to_pango("```"), "");
    assert_eq!(markdown_to_pango("a\n\nb"), "a\n\nb");
}

#[test]
fn unpaired_markers_stay() {
    assert_eq!(markdown_to_pango("**x"), "<i></i>x");
    assert_eq!(markdown_to_pango("a `b"), "a `b");
    assert_eq!(markdown_to_pango("***a***"), "<b><i>a</b></i>");
}

#[test]
fn escaped_text_cannot_open_a_tag() {
    let e = escape_html("<<b>> & </span>");
    assert!(!e.contains('<') && !e.contains('>'));
    assert_eq!(escape_html("plain words, no markup"), "plain words, no markup");
}
