//! USGS earthquake feeds (GeoJSON, public domain, no key). Besides earthquakes a feed classifies
//! `explosion`, `quarry blast`, `mining explosion` and similar: the non-seismic event types are
//! the interesting ones for a watch.

use chrono::DateTime;
use vstd::prelude::*;
use vstd::string::*;

use crate::double::{Double, ZERO};
use crate::json::{
    double_in, field_double, field_list, field_str, integer_in, item_at, item_double, items_in,
    text_in, Json,
};
use crate::models::rows;
use crate::text::{opt_view, quote, quoted, str_eq};

verus! {

pub const DEFAULT_FEED: &'static str = "2.5_day";

/// The feeds there are.
pub open spec fn feed_names() -> Seq<Seq<char>> {
    seq![
        "all_hour"@,
        "all_day"@,
        "1.0_day"@,
        "2.5_day"@,
        "4.5_day"@,
        "2.5_week"@,
        "4.5_week"@,
        "significant_month"@,
    ]
}

/// One event of a feed.
#[derive(Debug)]
pub struct QuakeEvent {
    pub id: String,
    pub mag: Option<Double>,
    pub place: String,
    pub time: String,
    pub event_type: String,
    pub title: String,
    pub url: String,
    pub lat: Double,
    pub lon: Double,
    pub depth_km: Double,
    pub status: String,
}

#[verifier::ext_equal]
pub struct QuakeModel {
    pub id: Seq<char>,
    pub mag: Option<Double>,
    pub place: Seq<char>,
    pub time: Seq<char>,
    pub event_type: Seq<char>,
    pub title: Seq<char>,
    pub url: Seq<char>,
    pub lat: Double,
    pub lon: Double,
    pub depth_km: Double,
    pub status: Seq<char>,
}

impl View for QuakeEvent {
    type V = QuakeModel;

    open spec fn view(&self) -> QuakeModel {
        QuakeModel {
            id: self.id@,
            mag: self.mag,
            place: self.place@,
            time: self.time@,
            event_type: self.event_type@,
            title: self.title@,
            url: self.url@,
            lat: self.lat,
            lon: self.lon,
            depth_km: self.depth_km,
            status: self.status@,
        }
    }
}

impl QuakeEvent {
    pub fn is_non_seismic(&self) -> (r: bool)
        ensures
            r == (self@.event_type != "earthquake"@),
    {
        !str_eq(self.event_type.as_str(), "earthquake")
    }
}

/// There is no such feed.
#[derive(Debug)]
pub struct UnknownFeed {
    pub feed: String,
}

impl UnknownFeed {
    pub fn message(&self) -> (r: String)
        ensures
            r@ == "unknown USGS feed "@ + quoted(self.feed@)
                + "; expected one of [\"all_hour\", \"all_day\", \"1.0_day\", \"2.5_day\", \"4.5_day\", \"2.5_week\", \"4.5_week\", \"significant_month\"]"@,
    {
        let mut m = "unknown USGS feed ".to_owned();
        m.append(quote(self.feed.as_str()).as_str());
        m.append(
            "; expected one of [\"all_hour\", \"all_day\", \"1.0_day\", \"2.5_day\", \"4.5_day\", \"2.5_week\", \"4.5_week\", \"significant_month\"]",
        );
        m
    }
}

/// Only the feeds there are may be asked for.
pub fn check_feed(feed: &str) -> (r: Result<(), UnknownFeed>)
    ensures
        match r {
            Ok(()) => feed_names().contains(feed@),
            Err(e) => !feed_names().contains(feed@) && e.feed@ == feed@,
        },
{
    let names = vec![
        "all_hour",
        "all_day",
        "1.0_day",
        "2.5_day",
        "4.5_day",
        "2.5_week",
        "4.5_week",
        "significant_month",
    ];
    let ghost all = feed_names();
    assert(names@.len() == all.len());
    assert forall|i: int| 0 <= i < names@.len() implies (#[trigger] names@[i])@ == all[i] by {}
    let mut i: usize = 0;
    while i < names.len()
        invariant
            i <= names@.len(),
            names@.len() == all.len(),
            all == feed_names(),
            forall|j: int| 0 <= j < names@.len() ==> (#[trigger] names@[j])@ == all[j],
            forall|j: int| 0 <= j < i ==> #[trigger] all[j] != feed@,
        decreases names.len() - i,
    {
        if str_eq(names[i], feed) {
            assert(all[i as int] == feed@);
            return Ok(());
        }
        assert(all[i as int] != feed@);
        i += 1;
    }
    Err(UnknownFeed { feed: feed.to_owned() })
}

/// Where the feed is found; the error of `check_feed` for one that there is not.
pub fn feed_url(feed: &str) -> (r: Result<String, UnknownFeed>)
    ensures
        match r {
            Ok(url) => feed_names().contains(feed@) && url@
                == "https://earthquake.usgs.gov/earthquakes/feed/v1.0/summary/"@ + feed@
                + ".geojson"@,
            Err(e) => !feed_names().contains(feed@) && e.feed@ == feed@,
        },
{
    match check_feed(feed) {
        Ok(()) => {
            let mut url = "https://earthquake.usgs.gov/earthquakes/feed/v1.0/summary/".to_owned();
            url.append(feed);
            url.append(".geojson");
            Ok(url)
        },
        Err(e) => Err(e),
    }
}

/// The instant so many milliseconds after the epoch, in RFC 3339 form.
pub uninterp spec fn millis_instant(ms: i64) -> Option<Seq<char>>;

/// `chrono::DateTime::from_timestamp_millis`, printed in RFC 3339 form.
#[verifier::external_body]
fn instant_of(ms: i64) -> (r: Option<String>)
    ensures
        opt_view(r) == millis_instant(ms),
{
    DateTime::from_timestamp_millis(ms).map(|t| t.to_rfc3339())
}

/// The text of a field, or else `d`.
pub open spec fn text_or(j: Option<Json>, name: Seq<char>, d: Seq<char>) -> Seq<char> {
    match j {
        Some(v) => match text_in(v.field(name)) {
            Some(t) => t,
            None => d,
        },
        None => d,
    }
}

fn get_text(j: Option<&Json>, name: &str, d: &str) -> (r: String)
    ensures
        r@ == text_or(
            match j {
                Some(v) => Some(*v),
                None => None,
            },
            name@,
            d@,
        ),
{
    match j {
        Some(v) => match field_str(v, name) {
            Some(t) => t.to_owned(),
            None => d.to_owned(),
        },
        None => d.to_owned(),
    }
}

/// The coordinates of a feature.
pub open spec fn coordinates(f: Json) -> Seq<Json> {
    match f.field("geometry"@) {
        Some(g) => match items_in(g.field("coordinates"@)) {
            Some(c) => c,
            None => seq![],
        },
        None => seq![],
    }
}

/// When a feature happened, in milliseconds after the epoch; the epoch where it does not say.
pub open spec fn millis(f: Json) -> i64 {
    match f.field("properties"@) {
        Some(v) => match integer_in(v.field("time"@)) {
            Some(n) => n,
            None => 0,
        },
        None => 0,
    }
}

/// The text of an instant; empty where there is none.
pub open spec fn instant_text(o: Option<Seq<char>>) -> Seq<char> {
    match o {
        Some(t) => t,
        None => seq![],
    }
}

/// The event that a feature describes, if it says where; `time` is when it happened.
pub open spec fn quake(f: Json, time: Seq<char>) -> Option<QuakeModel> {
    let p = f.field("properties"@);
    let c = coordinates(f);
    match (double_in(item_at(c, 0)), double_in(item_at(c, 1))) {
        (Some(lon), Some(lat)) => Some(
            QuakeModel {
                id: text_or(Some(f), "id"@, ""@),
                mag: match p {
                    Some(v) => double_in(v.field("mag"@)),
                    None => None,
                },
                place: text_or(p, "place"@, ""@),
                time,
                event_type: text_or(p, "type"@, "earthquake"@),
                title: text_or(p, "title"@, ""@),
                url: text_or(p, "url"@, ""@),
                lat,
                lon,
                depth_km: match double_in(item_at(c, 2)) {
                    Some(d) => d,
                    None => Double { bits: ZERO },
                },
                status: text_or(p, "status"@, ""@),
            },
        ),
        _ => None,
    }
}

/// The events of a list of features.
pub open spec fn quakes(features: Seq<Json>) -> Seq<QuakeModel>
    decreases features.len(),
{
    if features.len() == 0 {
        seq![]
    } else {
        match quake(
            features.last(),
            instant_text(millis_instant(millis(features.last()))),
        ) {
            Some(q) => quakes(features.drop_last()).push(q),
            None => quakes(features.drop_last()),
        }
    }
}

/// When a feature happened.
pub fn feature_millis(f: &Json) -> (r: i64)
    ensures
        r == millis(*f),
{
    match f.get("properties") {
        Some(v) => match v.get("time") {
            Some(t) => match t.as_integer() {
                Some(n) => n,
                None => 0,
            },
            None => 0,
        },
        None => 0,
    }
}

/// The event that a feature describes.
pub fn event_of(f: &Json, time: String) -> (r: Option<QuakeEvent>)
    ensures
        match r {
            Some(e) => quake(*f, time@) == Some(e@),
            None => quake(*f, time@) is None,
        },
{
    let p = f.get("properties");
    let none: Vec<Json> = Vec::new();
    let coords = match f.get("geometry") {
        Some(g) => match field_list(g, "coordinates") {
            Some(c) => c,
            None => &none,
        },
        None => &none,
    };
    assert(coords@ == coordinates(*f));
    let lon = match item_double(coords, 0) {
        Some(d) => d,
        None => {
            return None;
        },
    };
    let lat = match item_double(coords, 1) {
        Some(d) => d,
        None => {
            return None;
        },
    };
    let ghost when = time@;
    let e = QuakeEvent {
        id: get_text(Some(f), "id", ""),
        mag: match p {
            Some(v) => field_double(v, "mag"),
            None => None,
        },
        place: get_text(p, "place", ""),
        time,
        event_type: get_text(p, "type", "earthquake"),
        title: get_text(p, "title", ""),
        url: get_text(p, "url", ""),
        lat,
        lon,
        depth_km: match item_double(coords, 2) {
            Some(d) => d,
            None => Double::from_bits(ZERO),
        },
        status: get_text(p, "status", ""),
    };
    assert(e@ =~= quake(*f, when)->0);
    Some(e)
}

/// The events of a feed. A feature without a place on the globe is passed over.
pub fn parse(v: &Json) -> (r: Vec<QuakeEvent>)
    ensures
        rows(r@) == match items_in(v.field("features"@)) {
            Some(features) => quakes(features),
            None => seq![],
        },
{
    let mut out: Vec<QuakeEvent> = Vec::new();
    assert(rows(out@) =~= seq![]);
    if let Some(features) = field_list(v, "features") {
        let mut i: usize = 0;
        assert(features@.take(0) =~= seq![]);
        while i < features.len()
            invariant
                i <= features@.len(),
                rows(out@) == quakes(features@.take(i as int)),
            decreases features.len() - i,
        {
            assert(features@.take(i + 1).drop_last() =~= features@.take(i as int));
            let ghost done = rows(out@);
            let time = match instant_of(feature_millis(&features[i])) {
                Some(t) => t,
                None => String::new(),
            };
            assert(time@ =~= instant_text(millis_instant(millis(features@[i as int]))));
            if let Some(e) = event_of(&features[i], time) {
                let ghost ev = e@;
                out.push(e);
                assert(rows(out@) =~= done.push(ev));
            }
            i += 1;
        }
        assert(features@.take(i as int) =~= features@);
    }
    out
}

} // verus!
