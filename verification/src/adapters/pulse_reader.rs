//! Reads the content items that another system has collected. Its database is only ever read;
//! the reader moves a cursor along the time of collection.

use vstd::prelude::*;
use vstd::string::*;

use super::SourceAdapter;
use crate::models::{rows, RawItem, RawModel};
use crate::text::{before, str_before, trim, trimmed};

verus! {

/// How many rows one run takes.
pub const PULSE_ROWS: i64 = 200;

/// Where a reader stands: everything collected up to here has been read.
#[derive(Debug)]
pub struct PulseContentReader {
    pub since: String,
}

impl SourceAdapter for PulseContentReader {
    fn name(&self) -> (r: &str)
        ensures
            r@ == "pulse"@,
    {
        "pulse"
    }
}

/// A content item.
#[derive(Debug)]
pub struct PulseRow {
    pub id: String,
    pub url: String,
    pub title: String,
    pub text: String,
    pub collected_at: String,
}

#[verifier::ext_equal]
pub struct PulseModel {
    pub id: Seq<char>,
    pub url: Seq<char>,
    pub title: Seq<char>,
    pub text: Seq<char>,
    pub collected_at: Seq<char>,
}

impl View for PulseRow {
    type V = PulseModel;

    open spec fn view(&self) -> PulseModel {
        PulseModel {
            id: self.id@,
            url: self.url@,
            title: self.title@,
            text: self.text@,
            collected_at: self.collected_at@,
        }
    }
}

/// The raw item of a content item.
pub open spec fn pulse_item(p: PulseModel) -> RawModel {
    RawModel {
        source_type: "pulse"@,
        source_ref: if p.url.len() == 0 {
            p.id
        } else {
            p.url
        },
        title: if p.title.len() == 0 {
            None
        } else {
            Some(p.title)
        },
        text: p.text,
        license_class: "unknown"@,
        published_at: None,
    }
}

/// The raw items of the content items that hold text.
pub open spec fn pulse_items(ps: Seq<PulseModel>) -> Seq<RawModel>
    decreases ps.len(),
{
    if ps.len() == 0 {
        seq![]
    } else if trim(ps.last().text).len() == 0 {
        pulse_items(ps.drop_last())
    } else {
        pulse_items(ps.drop_last()).push(pulse_item(ps.last()))
    }
}

/// The latest time of collection, from `since` on.
pub open spec fn latest(since: Seq<char>, ps: Seq<PulseModel>) -> Seq<char>
    decreases ps.len(),
{
    if ps.len() == 0 {
        since
    } else {
        let seen = latest(since, ps.drop_last());
        if before(seen, ps.last().collected_at) {
            ps.last().collected_at
        } else {
            seen
        }
    }
}

/// No row lies behind the cursor that a run leaves, nor does the cursor go back.
pub proof fn law_cursor_passes_every_row(since: Seq<char>, ps: Seq<PulseModel>, i: int)
    requires
        0 <= i < ps.len(),
    ensures
        !before(latest(since, ps), ps[i].collected_at),
        !before(latest(since, ps), since),
    decreases ps.len(),
{
    let seen = latest(since, ps.drop_last());
    let last = ps.last().collected_at;
    lemma_cursor_keeps(since, ps.drop_last());
    crate::text::lemma_before_irreflexive(seen);
    crate::text::lemma_before_irreflexive(last);
    if i < ps.len() - 1 {
        law_cursor_passes_every_row(since, ps.drop_last(), i);
        lemma_not_back(seen, last, ps[i].collected_at);
    }
    lemma_not_back(seen, last, since);
}

proof fn lemma_cursor_keeps(since: Seq<char>, ps: Seq<PulseModel>)
    ensures
        !before(latest(since, ps), since),
    decreases ps.len(),
{
    crate::text::lemma_before_irreflexive(since);
    if ps.len() > 0 {
        lemma_cursor_keeps(since, ps.drop_last());
        lemma_not_back(latest(since, ps.drop_last()), ps.last().collected_at, since);
    }
}

/// What does not lie before `a` does not lie before anything later.
proof fn lemma_not_back(a: Seq<char>, b: Seq<char>, x: Seq<char>)
    requires
        !before(a, x),
    ensures
        before(a, b) ==> !before(b, x),
{
    if before(a, b) && before(b, x) {
        crate::text::lemma_before_transitive(a, b, x);
    }
}

impl PulseContentReader {
    pub fn last_cursor(&self) -> (r: String)
        ensures
            r@ == self.since@,
    {
        self.since.clone()
    }

    /// The raw items of the rows that were collected since the last run; the cursor moves behind
    /// the latest of them.
    pub fn take(&mut self, ps: &Vec<PulseRow>) -> (r: Vec<RawItem>)
        ensures
            rows(r@) == pulse_items(rows(ps@)),
            final(self).since@ == latest(old(self).since@, rows(ps@)),
    {
        let ghost all = rows(ps@);
        let ghost begin = self.since@;
        let mut out: Vec<RawItem> = Vec::new();
        let mut i: usize = 0;
        assert(all.take(0) =~= seq![]);
        assert(rows(out@) =~= seq![]);
        while i < ps.len()
            invariant
                i <= ps@.len(),
                all == rows(ps@),
                rows(out@) == pulse_items(all.take(i as int)),
                self.since@ == latest(begin, all.take(i as int)),
            decreases ps.len() - i,
        {
            assert(all.take(i + 1).drop_last() =~= all.take(i as int));
            assert(all.take(i + 1).last() == ps@[i as int]@);
            let p = &ps[i];
            if str_before(self.since.as_str(), p.collected_at.as_str()) {
                self.since = p.collected_at.clone();
            }
            let ghost done = rows(out@);
            if !trimmed(p.text.as_str()).as_str().is_empty() {
                let it = RawItem {
                    source_type: "pulse".to_owned(),
                    source_ref: if p.url.as_str().is_empty() {
                        p.id.clone()
                    } else {
                        p.url.clone()
                    },
                    title: if p.title.as_str().is_empty() {
                        None
                    } else {
                        Some(p.title.clone())
                    },
                    text: p.text.clone(),
                    license_class: "unknown".to_owned(),
                    published_at: None,
                };
                assert(it@ =~= pulse_item(p@));
                out.push(it);
                assert(rows(out@) =~= done.push(pulse_item(p@)));
            }
            i += 1;
        }
        assert(all.take(i as int) =~= all);
        out
    }
}

} // verus!
