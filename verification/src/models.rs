//! The rows of the world model and the values that stamp them.

use chrono::{DateTime, NaiveDate, NaiveDateTime, Utc};
use uuid::Uuid;
use vstd::prelude::*;

use crate::double::Double;
use crate::hash::is_hex;
use crate::matcher::{MatchModel, MatchScore};
use crate::text::{
    before, chars_of, is_ascii_digit, opt_copy, opt_view, string_of, trim, trim_chars, views,
};

verus! {

// ---------------------------------------------------------------------------------------------
// Outside values

/// A time of day and what stands around it, behind a year of `y` characters: `-01-31T12:00:00`,
/// digits of a fraction if there is one, `+00:00`.
pub open spec fn utc_form(s: Seq<char>, y: int) -> bool {
    let n = s.len();
    &&& 0 <= y
    &&& n >= y + 21
    &&& s[y] == '-' && is_ascii_digit(s[y + 1]) && is_ascii_digit(s[y + 2])
    &&& s[y + 3] == '-' && is_ascii_digit(s[y + 4]) && is_ascii_digit(s[y + 5])
    &&& s[y + 6] == 'T' && is_ascii_digit(s[y + 7]) && is_ascii_digit(s[y + 8])
    &&& s[y + 9] == ':' && is_ascii_digit(s[y + 10]) && is_ascii_digit(s[y + 11])
    &&& s[y + 12] == ':' && is_ascii_digit(s[y + 13]) && is_ascii_digit(s[y + 14])
    &&& n > y + 21 ==> s[y + 15] == '.' && forall|i: int|
        y + 15 < i < n - 6 ==> is_ascii_digit(#[trigger] s[i])
    &&& s.skip(n - 6) == seq!['+', '0', '0', ':', '0', '0']
}

/// The first instant that a clock tells.
pub open spec fn epoch() -> Seq<char> {
    "1970-01-01T00:00:00+00:00"@
}

/// An instant as a clock tells it, in UTC and RFC 3339 form, from 1970 on. A year beyond 9999 has a
/// sign and more digits.
pub open spec fn is_instant(s: Seq<char>) -> bool {
    ||| utc_form(s, 4) && !before(s, epoch()) && forall|i: int|
        0 <= i < 4 ==> is_ascii_digit(#[trigger] s[i])
    ||| s[0] == '+' && exists|y: int| y > 5 && #[trigger] utc_form(s, y)
}

/// `chrono::Utc::now` in RFC 3339 form: the time of the call, which is not before 1970.
#[verifier::external_body]
pub fn now() -> (r: String)
    ensures
        is_instant(r@),
{
    Utc::now().to_rfc3339()
}

/// The hyphenated form of an identifier: groups of 8, 4, 4, 4 and 12 hexadecimal digits.
pub open spec fn hyphenated(id: Seq<char>) -> bool {
    &&& id.len() == 36
    &&& forall|i: int|
        0 <= i < 36 ==> if i == 8 || i == 13 || i == 18 || i == 23 {
            #[trigger] id[i] == '-'
        } else {
            is_hex(id[i])
        }
}

/// `uuid::Uuid::new_v4` in its hyphenated form: a random identifier.
#[verifier::external_body]
pub fn new_id() -> (r: String)
    ensures
        hyphenated(r@),
{
    Uuid::new_v4().to_string()
}

/// What a text holds that is read as a JSON array of strings; nothing where it is no such array.
pub uninterp spec fn parsed_list(s: Seq<char>) -> Option<Seq<Seq<char>>>;

/// `serde_json::from_str` into a list of strings. What it reads is a function of the text.
#[verifier::external_body]
fn parse_list(s: &str) -> (r: Option<Vec<String>>)
    ensures
        match r {
            Some(v) => parsed_list(s@) == Some(views(v@)),
            None => parsed_list(s@) is None,
        },
{
    serde_json::from_str(s).ok()
}

/// The JSON array of the texts.
pub uninterp spec fn printed_list(v: Seq<Seq<char>>) -> Seq<char>;

/// `serde_json::to_string` of a list of strings, which does not fail on such a list. What it
/// prints is a function of the texts, and reading it back gives them.
#[verifier::external_body]
pub(crate) fn print_list(v: &Vec<String>) -> (r: String)
    ensures
        r@ == printed_list(views(v@)),
        parsed_list(r@) == Some(views(v@)),
{
    serde_json::to_string(v).unwrap_or_default()
}

/// The strings of a JSON array; none where the text is no array of strings.
pub open spec fn listed(json: Seq<char>) -> Seq<Seq<char>> {
    match parsed_list(json) {
        Some(v) => v,
        None => seq![],
    }
}

pub fn list_of(json: &str) -> (r: Vec<String>)
    ensures
        views(r@) == listed(json@),
{
    match parse_list(json) {
        Some(v) => v,
        None => {
            let v: Vec<String> = Vec::new();
            assert(views(v@) =~= seq![]);
            v
        },
    }
}

// ---------------------------------------------------------------------------------------------
// Rows

/// What the rows of a table hold.
pub open spec fn rows<T: View>(v: Seq<T>) -> Seq<T::V> {
    Seq::new(v.len(), |i: int| v[i]@)
}

/// An entity.
#[derive(Debug)]
pub struct WmEntity {
    pub id: String,
    pub entity_type: String,
    pub canonical_name: String,
    /// JSON array
    pub aliases: String,
    pub external_ids: String,
    pub confidence: Double,
    pub metadata: String,
    pub first_seen: String,
    pub last_seen: String,
    /// Entities decay unless refreshed by a fresh source touch.
    pub is_live: bool,
    /// `None` means no expiry. Otherwise ISO 8601; refreshed on every touch.
    pub expiry_time: Option<String>,
    pub last_source_update_time: Option<String>,
}

#[verifier::ext_equal]
pub struct EntityModel {
    pub id: Seq<char>,
    pub entity_type: Seq<char>,
    pub canonical_name: Seq<char>,
    pub aliases: Seq<char>,
    pub external_ids: Seq<char>,
    pub confidence: Double,
    pub metadata: Seq<char>,
    pub first_seen: Seq<char>,
    pub last_seen: Seq<char>,
    pub is_live: bool,
    pub expiry_time: Option<Seq<char>>,
    pub last_source_update_time: Option<Seq<char>>,
}

impl View for WmEntity {
    type V = EntityModel;

    open spec fn view(&self) -> EntityModel {
        EntityModel {
            id: self.id@,
            entity_type: self.entity_type@,
            canonical_name: self.canonical_name@,
            aliases: self.aliases@,
            external_ids: self.external_ids@,
            confidence: self.confidence,
            metadata: self.metadata@,
            first_seen: self.first_seen@,
            last_seen: self.last_seen@,
            is_live: self.is_live,
            expiry_time: opt_view(self.expiry_time),
            last_source_update_time: opt_view(self.last_source_update_time),
        }
    }
}

impl WmEntity {
    pub fn alias_list(&self) -> (r: Vec<String>)
        ensures
            views(r@) == listed(self@.aliases),
    {
        list_of(self.aliases.as_str())
    }

    pub fn dup(&self) -> (r: WmEntity)
        ensures
            r == *self,
    {
        WmEntity {
            id: self.id.clone(),
            entity_type: self.entity_type.clone(),
            canonical_name: self.canonical_name.clone(),
            aliases: self.aliases.clone(),
            external_ids: self.external_ids.clone(),
            confidence: self.confidence,
            metadata: self.metadata.clone(),
            first_seen: self.first_seen.clone(),
            last_seen: self.last_seen.clone(),
            is_live: self.is_live,
            expiry_time: opt_copy(&self.expiry_time),
            last_source_update_time: opt_copy(&self.last_source_update_time),
        }
    }
}

/// A relation between two entities.
#[derive(Debug)]
pub struct WmEdge {
    pub id: String,
    pub from_id: String,
    pub to_id: String,
    pub edge_type: String,
    /// How often the relation was observed.
    pub weight: u64,
    pub metadata: String,
    /// JSON array
    pub source_item_ids: String,
    /// Transaction time: when the relation was first and last observed.
    pub first_seen: String,
    pub last_seen: String,
    /// Valid time: when the relation held in the world, from the source's publication date.
    pub valid_at: Option<String>,
    /// Set when a newer, contradicting relation of an exclusive type superseded this one.
    pub invalid_at: Option<String>,
    pub superseded_by: Option<String>,
}

#[verifier::ext_equal]
pub struct EdgeModel {
    pub id: Seq<char>,
    pub from_id: Seq<char>,
    pub to_id: Seq<char>,
    pub edge_type: Seq<char>,
    pub weight: u64,
    pub metadata: Seq<char>,
    pub source_item_ids: Seq<char>,
    pub first_seen: Seq<char>,
    pub last_seen: Seq<char>,
    pub valid_at: Option<Seq<char>>,
    pub invalid_at: Option<Seq<char>>,
    pub superseded_by: Option<Seq<char>>,
}

impl View for WmEdge {
    type V = EdgeModel;

    open spec fn view(&self) -> EdgeModel {
        EdgeModel {
            id: self.id@,
            from_id: self.from_id@,
            to_id: self.to_id@,
            edge_type: self.edge_type@,
            weight: self.weight,
            metadata: self.metadata@,
            source_item_ids: self.source_item_ids@,
            first_seen: self.first_seen@,
            last_seen: self.last_seen@,
            valid_at: opt_view(self.valid_at),
            invalid_at: opt_view(self.invalid_at),
            superseded_by: opt_view(self.superseded_by),
        }
    }
}

impl WmEdge {
    pub fn source_ids(&self) -> (r: Vec<String>)
        ensures
            views(r@) == listed(self@.source_item_ids),
    {
        list_of(self.source_item_ids.as_str())
    }

    pub fn dup(&self) -> (r: WmEdge)
        ensures
            r == *self,
    {
        WmEdge {
            id: self.id.clone(),
            from_id: self.from_id.clone(),
            to_id: self.to_id.clone(),
            edge_type: self.edge_type.clone(),
            weight: self.weight,
            metadata: self.metadata.clone(),
            source_item_ids: self.source_item_ids.clone(),
            first_seen: self.first_seen.clone(),
            last_seen: self.last_seen.clone(),
            valid_at: opt_copy(&self.valid_at),
            invalid_at: opt_copy(&self.invalid_at),
            superseded_by: opt_copy(&self.superseded_by),
        }
    }
}

/// An ingested item.
#[derive(Debug)]
pub struct WmSourceItem {
    pub id: String,
    pub source_type: String,
    pub source_ref: String,
    pub content_hash: String,
    pub title: Option<String>,
    pub raw_text: String,
    pub ingested_at: String,
    pub status: String,
    /// 'commercial_clean' | 'non_commercial_only' | 'unknown', set per adapter at ingest time.
    pub license_class: String,
    /// Publication time reported by the source (RFC 3339), when available.
    pub published_at: Option<String>,
}

#[verifier::ext_equal]
pub struct SourceModel {
    pub id: Seq<char>,
    pub source_type: Seq<char>,
    pub source_ref: Seq<char>,
    pub content_hash: Seq<char>,
    pub title: Option<Seq<char>>,
    pub raw_text: Seq<char>,
    pub ingested_at: Seq<char>,
    pub status: Seq<char>,
    pub license_class: Seq<char>,
    pub published_at: Option<Seq<char>>,
}

impl View for WmSourceItem {
    type V = SourceModel;

    open spec fn view(&self) -> SourceModel {
        SourceModel {
            id: self.id@,
            source_type: self.source_type@,
            source_ref: self.source_ref@,
            content_hash: self.content_hash@,
            title: opt_view(self.title),
            raw_text: self.raw_text@,
            ingested_at: self.ingested_at@,
            status: self.status@,
            license_class: self.license_class@,
            published_at: opt_view(self.published_at),
        }
    }
}

/// A mention of a source item and the entity that it was resolved to.
#[derive(Debug)]
pub struct WmExtractionCandidate {
    pub id: String,
    pub source_item_id: String,
    pub mention_text: String,
    pub mention_type_guess: Option<String>,
    pub best_match_entity_id: Option<String>,
    /// In millionths.
    pub match_score: Option<i64>,
    pub status: String,
    pub created_at: String,
    /// The breakdown behind the score.
    pub feature_scores: Option<MatchScore>,
}

#[verifier::ext_equal]
pub struct CandidateModel {
    pub id: Seq<char>,
    pub source_item_id: Seq<char>,
    pub mention_text: Seq<char>,
    pub mention_type_guess: Option<Seq<char>>,
    pub best_match_entity_id: Option<Seq<char>>,
    pub match_score: Option<i64>,
    pub status: Seq<char>,
    pub created_at: Seq<char>,
    pub feature_scores: Option<MatchModel>,
}

/// What an optional score holds.
pub open spec fn opt_match(o: Option<MatchScore>) -> Option<MatchModel> {
    match o {
        Some(m) => Some(m@),
        None => None,
    }
}

impl View for WmExtractionCandidate {
    type V = CandidateModel;

    open spec fn view(&self) -> CandidateModel {
        CandidateModel {
            id: self.id@,
            source_item_id: self.source_item_id@,
            mention_text: self.mention_text@,
            mention_type_guess: opt_view(self.mention_type_guess),
            best_match_entity_id: opt_view(self.best_match_entity_id),
            match_score: self.match_score,
            status: self.status@,
            created_at: self.created_at@,
            feature_scores: opt_match(self.feature_scores),
        }
    }
}

/// A raw item as any source adapter produces it, before it is deduplicated and stored.
#[derive(Debug)]
pub struct RawItem {
    pub source_type: String,
    pub source_ref: String,
    pub title: Option<String>,
    pub text: String,
    /// 'commercial_clean' | 'non_commercial_only' | 'unknown'
    pub license_class: String,
    /// Publication time (RFC 3339) if the source reports one.
    pub published_at: Option<String>,
}

#[verifier::ext_equal]
pub struct RawModel {
    pub source_type: Seq<char>,
    pub source_ref: Seq<char>,
    pub title: Option<Seq<char>>,
    pub text: Seq<char>,
    pub license_class: Seq<char>,
    pub published_at: Option<Seq<char>>,
}

impl View for RawItem {
    type V = RawModel;

    open spec fn view(&self) -> RawModel {
        RawModel {
            source_type: self.source_type@,
            source_ref: self.source_ref@,
            title: opt_view(self.title),
            text: self.text@,
            license_class: self.license_class@,
            published_at: opt_view(self.published_at),
        }
    }
}

// ---------------------------------------------------------------------------------------------
// Dates

/// The instant that an RFC 3339 text names, in UTC and RFC 3339 form.
pub uninterp spec fn rfc3339_instant(s: Seq<char>) -> Option<Seq<char>>;

/// `chrono::DateTime::parse_from_rfc3339`, then the same instant in UTC, printed again.
#[verifier::external_body]
fn read_rfc3339(s: &str) -> (r: Option<String>)
    ensures
        opt_view(r) == rfc3339_instant(s@),
{
    DateTime::parse_from_rfc3339(s).ok().map(|t| t.with_timezone(&Utc).to_rfc3339())
}

/// The instant that an RFC 2822 text names, in UTC and RFC 3339 form.
pub uninterp spec fn rfc2822_instant(s: Seq<char>) -> Option<Seq<char>>;

/// `chrono::DateTime::parse_from_rfc2822`, then the same instant in UTC, printed.
#[verifier::external_body]
fn read_rfc2822(s: &str) -> (r: Option<String>)
    ensures
        opt_view(r) == rfc2822_instant(s@),
{
    DateTime::parse_from_rfc2822(s).ok().map(|t| t.with_timezone(&Utc).to_rfc3339())
}

/// The instant that a text with an offset names under a format, in UTC and RFC 3339 form.
pub uninterp spec fn zoned_instant(s: Seq<char>, format: Seq<char>) -> Option<Seq<char>>;

/// `chrono::DateTime::parse_from_str`, then the same instant in UTC, printed.
#[verifier::external_body]
fn read_zoned(s: &str, format: &str) -> (r: Option<String>)
    ensures
        opt_view(r) == zoned_instant(s@, format@),
{
    DateTime::parse_from_str(s, format).ok().map(|t| t.with_timezone(&Utc).to_rfc3339())
}

/// The instant that a text names under a format, read as UTC, in RFC 3339 form.
pub uninterp spec fn utc_instant(s: Seq<char>, format: Seq<char>) -> Option<Seq<char>>;

/// `chrono::NaiveDateTime::parse_from_str`, read as UTC and printed.
#[verifier::external_body]
fn read_utc(s: &str, format: &str) -> (r: Option<String>)
    ensures
        opt_view(r) == utc_instant(s@, format@),
{
    NaiveDateTime::parse_from_str(s, format).ok().map(|t| t.and_utc().to_rfc3339())
}

/// The first instant of the day that a text names under a format, read as UTC, in RFC 3339 form.
pub uninterp spec fn day_instant(s: Seq<char>, format: Seq<char>) -> Option<Seq<char>>;

/// `chrono::NaiveDate::parse_from_str`, taken at midnight, read as UTC and printed.
#[verifier::external_body]
fn read_day(s: &str, format: &str) -> (r: Option<String>)
    ensures
        opt_view(r) == day_instant(s@, format@),
{
    let day = NaiveDate::parse_from_str(s, format).ok()?;
    Some(day.and_hms_opt(0, 0, 0)?.and_utc().to_rfc3339())
}

/// `a`, or else `b`.
pub open spec fn or_else(a: Option<Seq<char>>, b: Option<Seq<char>>) -> Option<Seq<char>> {
    match a {
        Some(t) => Some(t),
        None => b,
    }
}

/// What follows the first comma, trimmed; the whole text where it has none. Feeds get the
/// weekday of an RFC 2822 date wrong, or leave it out.
pub open spec fn without_weekday(s: Seq<char>) -> Seq<char> {
    match crate::text::first_from(s, seq![','], 0) {
        Some(p) => trim(s.skip(p + 1)),
        None => s,
    }
}

/// The formats of a date without its weekday, each tried with its offset and then as UTC.
pub open spec fn weekday_date(d: Seq<char>) -> Option<Seq<char>> {
    let a = or_else(
        zoned_instant(d, "%d %b %Y %H:%M:%S %z"@),
        utc_instant(d, "%d %b %Y %H:%M:%S"@),
    );
    let b = or_else(
        zoned_instant(d, "%d %b %Y %H:%M %z"@),
        utc_instant(d, "%d %b %Y %H:%M"@),
    );
    let c = or_else(
        zoned_instant(d, "%d %b %Y %H:%M:%S GMT"@),
        utc_instant(d, "%d %b %Y %H:%M:%S"@),
    );
    or_else(a, or_else(b, c))
}

/// The formats without an offset, read as UTC.
pub open spec fn plain_date(s: Seq<char>) -> Option<Seq<char>> {
    or_else(
        utc_instant(s, "%Y%m%dT%H%M%SZ"@),
        or_else(
            utc_instant(s, "%Y-%m-%dT%H:%M:%S"@),
            or_else(
                utc_instant(s, "%Y-%m-%d %H:%M:%S"@),
                or_else(
                    utc_instant(s, "%Y-%m-%dT%H:%M:%S%.f"@),
                    day_instant(s, "%Y-%m-%d"@),
                ),
            ),
        ),
    )
}

/// The first reading of the trimmed text that succeeds; none of an empty one.
pub open spec fn feed_date(raw: Seq<char>) -> Option<Seq<char>> {
    let s = trim(raw);
    if s.len() == 0 {
        None
    } else {
        or_else(
            rfc3339_instant(s),
            or_else(rfc2822_instant(s), or_else(weekday_date(without_weekday(s)), plain_date(s))),
        )
    }
}

fn drop_weekday(s: &Vec<char>) -> (r: String)
    ensures
        r@ == without_weekday(s@),
{
    let comma: Vec<char> = vec![','];
    assert(comma@ =~= seq![',']);
    match crate::text::find_chars(s, &comma, 0) {
        Some(p) => {
            assert(p + 1 <= s.len());
            let rest = crate::text::sub_chars(s, p + 1, s.len());
            assert(rest@ =~= s@.skip(p + 1));
            string_of(&trim_chars(&rest))
        },
        None => string_of(s),
    }
}

fn read_weekday_date(d: &str) -> (r: Option<String>)
    ensures
        opt_view(r) == weekday_date(d@),
{
    if let Some(t) = read_zoned(d, "%d %b %Y %H:%M:%S %z") {
        return Some(t);
    }
    if let Some(t) = read_utc(d, "%d %b %Y %H:%M:%S") {
        return Some(t);
    }
    if let Some(t) = read_zoned(d, "%d %b %Y %H:%M %z") {
        return Some(t);
    }
    if let Some(t) = read_utc(d, "%d %b %Y %H:%M") {
        return Some(t);
    }
    if let Some(t) = read_zoned(d, "%d %b %Y %H:%M:%S GMT") {
        return Some(t);
    }
    read_utc(d, "%d %b %Y %H:%M:%S")
}

fn read_plain_date(s: &str) -> (r: Option<String>)
    ensures
        opt_view(r) == plain_date(s@),
{
    if let Some(t) = read_utc(s, "%Y%m%dT%H%M%SZ") {
        return Some(t);
    }
    if let Some(t) = read_utc(s, "%Y-%m-%dT%H:%M:%S") {
        return Some(t);
    }
    if let Some(t) = read_utc(s, "%Y-%m-%d %H:%M:%S") {
        return Some(t);
    }
    if let Some(t) = read_utc(s, "%Y-%m-%dT%H:%M:%S%.f") {
        return Some(t);
    }
    read_day(s, "%Y-%m-%d")
}

/// Best-effort parse of the date formats that feeds emit into RFC 3339.
pub fn parse_feed_date(raw: &str) -> (r: Option<String>)
    ensures
        opt_view(r) == feed_date(raw@),
{
    let chars = trim_chars(&chars_of(raw));
    if chars.len() == 0 {
        return None;
    }
    let s = string_of(&chars);
    if let Some(t) = read_rfc3339(s.as_str()) {
        return Some(t);
    }
    if let Some(t) = read_rfc2822(s.as_str()) {
        return Some(t);
    }
    if let Some(t) = read_weekday_date(drop_weekday(&chars).as_str()) {
        return Some(t);
    }
    read_plain_date(s.as_str())
}

} // verus!
