use enargeia::adapters::body::{article_text, html_to_text, readable, MAX_BODY_CHARS};

#[test]
fn strips_scripts_and_keeps_paragraphs() {
    let html = "<html><head><script>var x=1;</script><style>p{}</style></head><body>\
        <nav><a href='/'>Home</a></nav>\
        <p>This is a sufficiently long paragraph of prose about Recorded Future being acquired by Mastercard in a large deal announced today.</p>\
        <p>short</p>\
        <footer>© 2026</footer></body></html>";
    let text = html_to_text(html);
    assert!(text.contains("Recorded Future"));
    assert!(!text.contains("var x"));
    assert!(!text.contains("Home"));
    assert!(!text.contains("short"));
}

const PROSE: &str = "The quick brown fox jumps over the lazy dog while the band plays on and the crowd cheers loudly.";

#[test]
fn containers_are_removed_in_any_case() {
    let html = format!("<SCRIPT>var secret = 1;</ScRiPt><div>{PROSE}</div><Footer>tail {PROSE}");
    assert_eq!(html_to_text(&html), PROSE);
}

#[test]
fn entities_are_decoded_and_space_is_folded() {
    let html = format!("<p>{PROSE}&nbsp;&amp;   &lt;b&gt;\t&ldquo;x&rdquo; &mdash; it&#39;s</p>");
    assert_eq!(html_to_text(&html), format!("{PROSE} & <b> “x” — it's"));
}

#[test]
fn inline_tags_are_spaces_and_blocks_are_lines() {
    let html = format!("<p>{PROSE} <b>bold</b></p><li>{PROSE}<br clear>{PROSE}</li>");
    assert_eq!(html_to_text(&html), format!("{PROSE} bold\n{PROSE}\n{PROSE}"));
}

#[test]
fn article_needs_prose_and_is_cut() {
    assert_eq!(article_text("<p>too short</p>"), None);
    let html = format!("<p>{}</p>", "word ".repeat(6000));
    assert_eq!(article_text(&html).unwrap().chars().count(), MAX_BODY_CHARS);
}

#[test]
fn content_types() {
    assert!(readable(None));
    assert!(readable(Some("text/html; charset=utf-8")));
    assert!(readable(Some("application/xhtml+xml")));
    assert!(!readable(Some("application/pdf")));
}

#[test]
fn scripts_do_not_reach_the_text() {
    let prose = "This paragraph is long enough to count as prose because it goes on and on and on.";
    let page = |x: &str| format!("<p>{prose}</p><script>{x}</script><p>{prose}</p>");
    let text = html_to_text(&page(""));
    assert_eq!(text, format!("{prose}\n{prose}"));
    assert_eq!(html_to_text(&page("if (a < b) { \"<script\" } </scrip")), text);
    assert_eq!(html_to_text(&page("</style><!-- <nav> -->")), text);
}
