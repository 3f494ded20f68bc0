//! GDELT DOC 2.0 adapter, a `commercial_clean` source: no auth, 15-minute underlying cadence, and
//! terms that explicitly permit commercial use and redistribution.
//!
//! Limitation: `artlist` mode returns article metadata (title, address, domain, date), not body
//! text, so that the text of an item is thin.

use vstd::prelude::*;
use vstd::string::*;

use super::SourceAdapter;
use crate::models::{rows, RawItem, RawModel};
use crate::text::{decimal, decimal_of, opt_copy, opt_view};

verus! {

pub const DOC_API_URL: &'static str = "https://api.gdeltproject.org/api/v2/doc/doc";

/// GDELT asks for at most one request every so many seconds.
pub const MIN_REQUEST_GAP_SECONDS: u64 = 5;

/// Searches the news for the given queries.
#[derive(Debug)]
pub struct GdeltAdapter {
    pub queries: Vec<String>,
    pub timespan: String,
    pub max_records: u32,
}

impl GdeltAdapter {
    pub fn new(queries: Vec<String>) -> (r: Self)
        ensures
            r.queries == queries,
            r.timespan@ == "1d"@,
            r.max_records == 50,
    {
        GdeltAdapter { queries, timespan: "1d".to_owned(), max_records: 50 }
    }

    /// The parameters of the request for a query.
    pub fn parameters(&self, query: &str) -> (r: Vec<(&'static str, String)>)
        ensures
            crate::order::pairs(r@) == seq![
                ("query"@, query@),
                ("mode"@, "artlist"@),
                ("format"@, "json"@),
                ("timespan"@, self.timespan@),
                ("maxrecords"@, decimal(self.max_records as nat)),
            ],
    {
        let r = vec![
            ("query", query.to_owned()),
            ("mode", "artlist".to_owned()),
            ("format", "json".to_owned()),
            ("timespan", self.timespan.clone()),
            ("maxrecords", decimal_of(self.max_records as u64)),
        ];
        assert(crate::order::pairs(r@) =~= seq![
            ("query"@, query@),
            ("mode"@, "artlist"@),
            ("format"@, "json"@),
            ("timespan"@, self.timespan@),
            ("maxrecords"@, decimal(self.max_records as nat)),
        ]);
        r
    }
}

impl SourceAdapter for GdeltAdapter {
    fn name(&self) -> (r: &str)
        ensures
            r@ == "gdelt"@,
    {
        "gdelt"
    }

    fn license_class(&self) -> (r: &str)
        ensures
            r@ == "commercial_clean"@,
    {
        "commercial_clean"
    }
}

/// What GDELT says of an article.
#[derive(Debug)]
pub struct DocArticle {
    pub url: Option<String>,
    pub title: Option<String>,
    pub domain: Option<String>,
    /// Kept for provenance; no item carries it.
    pub seendate: Option<String>,
}

#[verifier::ext_equal]
pub struct ArticleModel {
    pub url: Option<Seq<char>>,
    pub title: Option<Seq<char>>,
    pub domain: Option<Seq<char>>,
    pub seendate: Option<Seq<char>>,
}

impl View for DocArticle {
    type V = ArticleModel;

    open spec fn view(&self) -> ArticleModel {
        ArticleModel {
            url: opt_view(self.url),
            title: opt_view(self.title),
            domain: opt_view(self.domain),
            seendate: opt_view(self.seendate),
        }
    }
}

/// The raw item that an article gives, if it has an address and a title.
pub open spec fn article_item(a: ArticleModel) -> Option<RawModel> {
    match (a.url, a.title) {
        (Some(url), Some(title)) => if title.len() == 0 {
            None
        } else {
            Some(
                RawModel {
                    source_type: "gdelt"@,
                    source_ref: url,
                    title: Some(title),
                    text: title + " ("@ + (match a.domain {
                        Some(d) => d,
                        None => seq![],
                    }) + ")"@,
                    license_class: "commercial_clean"@,
                    published_at: None,
                },
            )
        },
        _ => None,
    }
}

pub open spec fn article_items(list: Seq<ArticleModel>) -> Seq<RawModel>
    decreases list.len(),
{
    if list.len() == 0 {
        seq![]
    } else {
        match article_item(list.last()) {
            Some(it) => article_items(list.drop_last()).push(it),
            None => article_items(list.drop_last()),
        }
    }
}

fn to_item(a: &DocArticle) -> (r: Option<RawItem>)
    ensures
        match r {
            Some(it) => article_item(a@) == Some(it@),
            None => article_item(a@) is None,
        },
{
    let url = match opt_copy(&a.url) {
        Some(u) => u,
        None => {
            return None;
        },
    };
    let title = match opt_copy(&a.title) {
        Some(t) => t,
        None => {
            return None;
        },
    };
    if title.as_str().is_empty() {
        return None;
    }
    let domain = match opt_copy(&a.domain) {
        Some(d) => d,
        None => String::new(),
    };
    let mut text = title.clone();
    text.append(" (");
    text.append(domain.as_str());
    text.append(")");
    let it = RawItem {
        source_type: "gdelt".to_owned(),
        source_ref: url,
        title: Some(title),
        text,
        license_class: "commercial_clean".to_owned(),
        published_at: None,
    };
    assert(it@ =~= article_item(a@)->0);
    Some(it)
}

/// The raw items of a reply. An article without an address or a title is passed over.
pub fn items_from(articles: &Vec<DocArticle>) -> (r: Vec<RawItem>)
    ensures
        rows(r@) == article_items(rows(articles@)),
{
    let ghost all = rows(articles@);
    let mut out: Vec<RawItem> = Vec::new();
    let mut i: usize = 0;
    assert(all.take(0) =~= seq![]);
    assert(rows(out@) =~= seq![]);
    while i < articles.len()
        invariant
            i <= articles@.len(),
            all == rows(articles@),
            rows(out@) == article_items(all.take(i as int)),
        decreases articles.len() - i,
    {
        assert(all.take(i + 1).drop_last() =~= all.take(i as int));
        assert(all.take(i + 1).last() == articles@[i as int]@);
        let ghost done = rows(out@);
        if let Some(it) = to_item(&articles[i]) {
            let ghost iv = it@;
            out.push(it);
            assert(rows(out@) =~= done.push(iv));
        }
        i += 1;
    }
    assert(all.take(i as int) =~= all);
    out
}

} // verus!
