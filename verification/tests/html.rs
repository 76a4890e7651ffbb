use italic::html::escape;

#[test]
fn escapes_all_five() {
    assert_eq!(escape("a & b < c > d \" e ' f"), "a &amp; b &lt; c &gt; d &quot; e &#39; f");
}

#[test]
fn leaves_plain_text_untouched() {
    assert_eq!(escape("hello world"), "hello world");
}

#[test]
fn preserves_non_ascii() {
    assert_eq!(escape("café · 你好"), "café · 你好");
}

#[test]
fn empty_string() {
    assert_eq!(escape(""), "");
}

#[test]
fn truncate_words_cuts_at_a_word_boundary() {
    assert_eq!(italic::html::truncate_words("hello world foo bar baz", 15), "hello world…");
}

#[test]
fn truncate_words_keeps_short_text() {
    let short = "a".repeat(100);
    assert_eq!(italic::html::truncate_words(&short, 250), short);
}

#[test]
fn truncate_words_composes_with_strip_tags() {
    let text = italic::html::strip_tags("<p>hello world foo bar baz</p>");
    assert_eq!(text, "hello world foo bar baz");
    assert_eq!(italic::html::truncate_words(&text, 15), "hello world…");
}

#[test]
fn truncate_words_long_body_fits_and_is_marked() {
    let long_body = "word ".repeat(100);
    let s = italic::html::truncate_words(&long_body, 250);
    assert!(s.chars().count() <= 250);
    assert!(s.ends_with('…'));
    assert!(s.starts_with("word word"));
    assert_eq!(italic::html::truncate_words("abcdefghij", 5), "abcd…");
}

#[test]
fn strip_tags_drops_markup_and_unclosed_tails() {
    assert_eq!(italic::html::strip_tags("<h1>Hello</h1>\n<p>Body <em>text</em>.</p>"), "Hello\nBody text.");
    assert_eq!(italic::html::strip_tags("a < b"), "a ");
    assert_eq!(italic::html::strip_tags("no tags"), "no tags");
}
