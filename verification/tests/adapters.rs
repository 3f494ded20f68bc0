use enargeia::adapters::celestrak::{check_group, group_url, object_name};
use enargeia::adapters::gdelt::{items_from, DocArticle, GdeltAdapter};
use enargeia::adapters::pulse_reader::{PulseContentReader, PulseRow};
use enargeia::adapters::SourceAdapter;

#[test]
fn group_names_are_checked() {
    assert!(check_group("active").is_ok());
    assert!(check_group("last-30-days").is_ok());
    assert!(check_group("").is_err());
    let err = check_group("a&b").unwrap_err();
    assert_eq!(err.message(), "invalid CelesTrak group name \"a&b\"");
    assert_eq!(
        group_url("stations"),
        "https://celestrak.org/NORAD/elements/gp.php?GROUP=stations&FORMAT=json"
    );
}

#[test]
fn nameless_objects_are_called_by_number() {
    assert_eq!(object_name(&None, 25544), "NORAD 25544");
    assert_eq!(object_name(&Some("ISS".to_string()), 25544), "ISS");
}

#[test]
fn search_parameters() {
    let a = GdeltAdapter::new(vec!["robots".to_string()]);
    assert_eq!(a.name(), "gdelt");
    assert_eq!(a.license_class(), "commercial_clean");
    let expected: Vec<(&str, String)> = vec![
        ("query", "robots".to_string()),
        ("mode", "artlist".to_string()),
        ("format", "json".to_string()),
        ("timespan", "1d".to_string()),
        ("maxrecords", "50".to_string()),
    ];
    assert_eq!(a.parameters("robots"), expected);
}

fn article(url: Option<&str>, title: Option<&str>, domain: Option<&str>) -> DocArticle {
    DocArticle {
        url: url.map(|s| s.to_string()),
        title: title.map(|s| s.to_string()),
        domain: domain.map(|s| s.to_string()),
        seendate: None,
    }
}

#[test]
fn articles_without_address_or_title_are_skipped() {
    let items = items_from(&vec![
        article(Some("u1"), Some("Title"), Some("x.org")),
        article(None, Some("Title"), None),
        article(Some("u2"), Some(""), None),
        article(Some("u3"), None, None),
        article(Some("u4"), Some("Other"), None),
    ]);
    let got: Vec<(&str, &str)> =
        items.iter().map(|i| (i.source_ref.as_str(), i.text.as_str())).collect();
    assert_eq!(got, vec![("u1", "Title (x.org)"), ("u4", "Other ()")]);
    assert_eq!(items[0].license_class, "commercial_clean");
    assert_eq!(items[0].title.as_deref(), Some("Title"));
}

fn row(id: &str, url: &str, title: &str, text: &str, at: &str) -> PulseRow {
    PulseRow {
        id: id.to_string(),
        url: url.to_string(),
        title: title.to_string(),
        text: text.to_string(),
        collected_at: at.to_string(),
    }
}

#[test]
fn cursor_passes_every_row_also_an_empty_one() {
    let mut reader = PulseContentReader { since: "2026-01-01".to_string() };
    let items = reader.take(&vec![
        row("1", "", "", "some text", "2026-01-02"),
        row("2", "u2", "T", " \n", "2026-01-04"),
        row("3", "u3", "T", "more", "2026-01-03"),
    ]);
    assert_eq!(reader.last_cursor(), "2026-01-04");
    let refs: Vec<&str> = items.iter().map(|i| i.source_ref.as_str()).collect();
    assert_eq!(refs, vec!["1", "u3"]);
    assert_eq!(items[0].title, None);
    assert!(reader.take(&Vec::new()).is_empty());
    assert_eq!(reader.last_cursor(), "2026-01-04");
    assert_eq!(reader.name(), "pulse");
}
