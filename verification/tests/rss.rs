use enargeia::adapters::rss::{feed_items, parse_feed, strip_tags, RssAdapter};
use enargeia::adapters::SourceAdapter;

#[test]
fn parses_rss2_item() {
    let xml = r#"<rss><channel><item><title>Hello</title><link>http://x/1</link><description>World</description></item></channel></rss>"#;
    let parsed = parse_feed(xml).unwrap();
    assert_eq!(parsed.len(), 1);
    assert_eq!(parsed[0].title, "Hello");
    assert_eq!(parsed[0].link, "http://x/1");
    assert_eq!(parsed[0].text, "World");
}

#[test]
fn parses_atom_entry() {
    let xml = r#"<feed><entry><title>Hi</title><link href="http://x/2"/><summary>Sum</summary></entry></feed>"#;
    let parsed = parse_feed(xml).unwrap();
    assert_eq!(parsed.len(), 1);
    assert_eq!(parsed[0].link, "http://x/2");
}

#[test]
fn parses_cdata_description() {
    let xml = r#"<rss><channel><item><title>T</title><link>http://x/3</link><description><![CDATA[<p>Hello <b>World</b></p>]]></description></item></channel></rss>"#;
    let parsed = parse_feed(xml).unwrap();
    assert_eq!(parsed.len(), 1);
    assert_eq!(parsed[0].text, "<p>Hello <b>World</b></p>");
    assert_eq!(strip_tags(&parsed[0].text), "Hello World");
}

#[test]
fn feed_items_fall_back_to_the_feed_address() {
    let xml = r#"<rss><channel><title>Channel</title><item><description>A &amp; <![CDATA[<b>B</b>]]></description></item>
        <item><title>T &lt;1&gt;</title><link>http://x/4</link><content:encoded><![CDATA[<p>Body</p>]]></content:encoded></item></channel></rss>"#;
    let items = feed_items("http://feed", parse_feed(xml).unwrap());
    assert_eq!(items.len(), 2);
    assert_eq!(items[0].source_ref, "http://feed");
    assert_eq!(items[0].title, None);
    assert_eq!(items[0].text, "A &B");
    assert_eq!(items[0].license_class, "unknown");
    assert_eq!(items[1].source_ref, "http://x/4");
    assert_eq!(items[1].title.as_deref(), Some("T <1>"));
    assert_eq!(items[1].text, "Body");
    assert_eq!(items[1].source_type, "rss");
}

#[test]
fn malformed_feed_is_an_error() {
    let err = parse_feed("<rss><item></rss>").err().unwrap();
    assert_eq!(err.message(), "xml parse error");
}

#[test]
fn tags_are_stripped_and_space_is_folded() {
    assert_eq!(strip_tags("a <b>c</b>\n\n d <unclosed"), "a c d");
}

#[test]
fn adapter_says_what_it_is() {
    let a = RssAdapter::new(vec!["http://x".to_string()]);
    assert_eq!(a.name(), "rss");
    assert_eq!(a.license_class(), "unknown");
    assert_eq!(a.feed_urls, vec!["http://x"]);
}
