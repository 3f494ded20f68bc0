//! Geography: which place a name stands for, and which entities are placed.

use vstd::prelude::*;

use crate::context::all_names;
use crate::double::Double;
use crate::geo::{
    countries_of, country_hit, country_named, country_of, geo_row, geocoded, goes_by, is_ambiguous,
    is_placed, line_names, most_populous, name_hit, name_rows, place_hit, place_of, places_of,
    same_place, shown_features, surest, synonym, wants_place, with_place, CountryModel,
    FeatureModel, GazetteerModel, NameModel, PlaceModel,
};
use crate::laws::lists::lemma_push_has;
use crate::matcher::{byte_len, normalized};
use crate::models::EntityModel;
use crate::text::pieces;
use crate::world::{entity_of, GeoModel};

verus! {

// ---------------------------------------------------------------------------------------------
// Places

/// The most populous place that fits: one that does, with no fewer people than any other that
/// does; none only where none fits.
pub proof fn law_most_populous_place(ps: Seq<PlaceModel>, fits: spec_fn(PlaceModel) -> bool)
    ensures
        match most_populous(ps, fits) {
            Some(p) => {
                &&& ps.contains(p)
                &&& fits(p)
                &&& forall|i: int|
                    0 <= i < ps.len() && fits(#[trigger] ps[i]) ==> ps[i].population
                        <= p.population
            },
            None => forall|i: int| 0 <= i < ps.len() ==> !fits(#[trigger] ps[i]),
        },
    decreases ps.len(),
{
    if ps.len() > 0 {
        let most = ps.drop_last();
        law_most_populous_place(most, fits);
        assert(ps =~= most.push(ps.last()));
        assert forall|i: int| 0 <= i < most.len() implies #[trigger] ps[i] == most[i] by {}
        if let Some(b) = most_populous(most, fits) {
            lemma_push_has(most, ps.last(), b);
        }
        lemma_push_has(most, ps.last(), ps.last());
        match most_populous(ps, fits) {
            Some(p) => {
                assert forall|i: int| 0 <= i < ps.len() && fits(#[trigger] ps[i]) implies
                    ps[i].population <= p.population by {
                    if i < most.len() {
                        assert(most[i] == ps[i]);
                    }
                }
            },
            None => {
                assert forall|i: int| 0 <= i < ps.len() implies !fits(#[trigger] ps[i]) by {
                    if i < most.len() {
                        assert(most[i] == ps[i]);
                    }
                }
            },
        }
    }
}

/// The place goes by the name, by one of the rows of the gazetteer.
pub open spec fn is_called(g: GazetteerModel, p: PlaceModel, norm: Seq<char>) -> bool {
    exists|i: int|
        0 <= i < g.names.len() && (#[trigger] g.names[i]).geonameid == p.geonameid
            && g.names[i].name_norm == norm
}

/// What a place name stands for: the most populous place that goes by it. One is surer of it where
/// no other place does.
pub proof fn law_place_name_stands_for_the_largest(g: GazetteerModel, norm: Seq<char>)
    ensures
        match place_hit(g, norm) {
            None => forall|i: int| 0 <= i < g.places.len() ==> !is_called(
                g,
                #[trigger] g.places[i],
                norm,
            ),
            Some(h) => exists|k: int|
                0 <= k < g.places.len() && is_called(g, #[trigger] g.places[k], norm) && h.lat
                    == g.places[k].lat && h.lon == g.places[k].lon && h.geonameid == Some(
                    g.places[k].geonameid,
                ) && (forall|i: int|
                    0 <= i < g.places.len() && is_called(g, #[trigger] g.places[i], norm)
                        ==> g.places[i].population <= g.places[k].population) && (
                h.confidence.bits == 0x3fe999999999999a || h.confidence.bits
                    == 0x3fe3333333333333) && ((forall|i: int|
                    0 <= i < g.places.len() && is_called(g, #[trigger] g.places[i], norm)
                        ==> g.places[i] == g.places[k]) ==> h.confidence.bits
                    == 0x3fe999999999999a) && ((exists|i: int|
                    0 <= i < g.places.len() && is_called(g, #[trigger] g.places[i], norm)
                        && g.places[i].geonameid != g.places[k].geonameid) ==> h.confidence.bits
                    == 0x3fe3333333333333),
        },
{
    let fits = |p: PlaceModel| goes_by(g.names, p.geonameid, norm);
    law_most_populous_place(g.places, fits);
    assert forall|i: int| 0 <= i < g.places.len() implies (is_called(
        g,
        #[trigger] g.places[i],
        norm,
    ) <==> fits(g.places[i])) by {}
    if let Some(p) = most_populous(g.places, fits) {
        let k = choose|k: int| 0 <= k < g.places.len() && g.places[k] == p;
        assert(is_called(g, g.places[k], norm));
        if is_ambiguous(g, norm, p) {
            let i = choose|i: int|
                0 <= i < g.places.len() && goes_by(
                    g.names,
                    (#[trigger] g.places[i]).geonameid,
                    norm,
                ) && !same_place(p, g.places[i]);
            assert(is_called(g, g.places[i], norm) && g.places[i] != p);
        }
        if exists|i: int|
            0 <= i < g.places.len() && is_called(g, #[trigger] g.places[i], norm)
                && g.places[i].geonameid != p.geonameid {
            let i = choose|i: int|
                0 <= i < g.places.len() && is_called(g, #[trigger] g.places[i], norm)
                    && g.places[i].geonameid != p.geonameid;
            assert(goes_by(g.names, g.places[i].geonameid, norm) && !same_place(p, g.places[i]));
        }
    }
}

proof fn lemma_country_named(cs: Seq<CountryModel>, key: Seq<char>)
    ensures
        country_named(cs, key) is Some <==> exists|i: int|
            0 <= i < cs.len() && (#[trigger] cs[i]).name_norm == key,
        country_named(cs, key) matches Some(c) ==> c.name_norm == key && cs.contains(c),
    decreases cs.len(),
{
    if cs.len() > 0 && cs[0].name_norm != key {
        let rest = cs.drop_first();
        lemma_country_named(rest, key);
        if exists|i: int| 0 <= i < rest.len() && (#[trigger] rest[i]).name_norm == key {
            let i = choose|i: int| 0 <= i < rest.len() && (#[trigger] rest[i]).name_norm == key;
            assert(cs[i + 1].name_norm == key);
        }
        if exists|i: int| 0 <= i < cs.len() && (#[trigger] cs[i]).name_norm == key {
            let i = choose|i: int| 0 <= i < cs.len() && (#[trigger] cs[i]).name_norm == key;
            assert(rest[i - 1].name_norm == key);
        }
        if let Some(c) = country_named(rest, key) {
            let k = choose|k: int| 0 <= k < rest.len() && rest[k] == c;
            assert(cs[k + 1] == c);
        }
    } else if cs.len() > 0 {
        assert(cs.contains(cs[0]));
    }
}

/// The common names of some countries.
pub open spec fn common_name(norm: Seq<char>) -> Seq<char> {
    if seq![
        "us"@,
        "usa"@,
        "u s"@,
        "u s a"@,
        "united states of america"@,
        "america"@,
    ].contains(norm) {
        "united states"@
    } else if seq!["uk"@, "u k"@, "britain"@, "great britain"@].contains(norm) {
        "united kingdom"@
    } else if seq!["uae"@, "u a e"@].contains(norm) {
        "united arab emirates"@
    } else if norm == "korea"@ {
        "south korea"@
    } else if norm == "czech republic"@ {
        "czechia"@
    } else if seq!["holland"@, "the netherlands"@].contains(norm) {
        "netherlands"@
    } else {
        norm
    }
}

proof fn lemma_common_name(norm: Seq<char>)
    ensures
        common_name(norm) == match synonym(norm) {
            Some(k) => k,
            None => norm,
        },
{
    let us = seq![
        "us"@,
        "usa"@,
        "u s"@,
        "u s a"@,
        "united states of america"@,
        "america"@,
    ];
    assert(us[0] == "us"@ && us[1] == "usa"@ && us[2] == "u s"@ && us[3] == "u s a"@ && us[4]
        == "united states of america"@ && us[5] == "america"@);
    let uk = seq!["uk"@, "u k"@, "britain"@, "great britain"@];
    assert(uk[0] == "uk"@ && uk[1] == "u k"@ && uk[2] == "britain"@ && uk[3] == "great britain"@);
    let uae = seq!["uae"@, "u a e"@];
    assert(uae[0] == "uae"@ && uae[1] == "u a e"@);
    let nl = seq!["holland"@, "the netherlands"@];
    assert(nl[0] == "holland"@ && nl[1] == "the netherlands"@);
    reveal_strlit("korea");
    reveal_strlit("russia");
    reveal_strlit("south korea");
    reveal_strlit("north korea");
    reveal_strlit("czechia");
    reveal_strlit("czech republic");
    reveal_strlit("holland");
    reveal_strlit("the netherlands");
    assert("korea"@.len() == 5 && "russia"@.len() == 6 && "south korea"@.len() == 11
        && "north korea"@.len() == 11 && "czechia"@.len() == 7 && "czech republic"@.len() == 14
        && "holland"@.len() == 7 && "the netherlands"@.len() == 15);
    assert("czechia"@[0] == 'c' && "holland"@[0] == 'h');
    assert("south korea"@[0] == 's' && "north korea"@[0] == 'n');
}

/// What the name of a country stands for: its capital, the most populous place of the country that
/// is marked as one, or else the most populous that goes by the capital's name; one is surest of
/// it. A name that is no country's, also not in its common form, stands for none.
pub proof fn law_country_stands_for_its_capital(g: GazetteerModel, norm: Seq<char>)
    ensures
        ({
            let key = common_name(norm);
            match country_hit(g, norm) {
                None => (forall|i: int|
                    0 <= i < g.countries.len() ==> (#[trigger] g.countries[i]).name_norm != key)
                    || country_named(g.countries, key) is Some && forall|j: int|
                    0 <= j < g.places.len() ==> !(#[trigger] g.places[j].country
                        == country_named(g.countries, key)->0.iso && (g.places[j].feature_code
                        == "PPLC"@ || is_called(
                        g,
                        g.places[j],
                        normalized(country_named(g.countries, key)->0.capital),
                    ))),
                Some(h) => exists|i: int, k: int|
                    #![trigger g.countries[i], g.places[k]]
                    0 <= i < g.countries.len() && 0 <= k < g.places.len()
                        && g.countries[i].name_norm == key && g.places[k].country
                        == g.countries[i].iso && h.lat == g.places[k].lat && h.lon
                        == g.places[k].lon && h.geonameid == Some(g.places[k].geonameid)
                        && h.confidence.bits == 0x3feccccccccccccd && (g.places[k].feature_code
                        == "PPLC"@ || is_called(
                        g,
                        g.places[k],
                        normalized(g.countries[i].capital),
                    )) && (forall|j: int|
                        0 <= j < g.places.len() && #[trigger] g.places[j].country
                            == g.countries[i].iso && g.places[j].feature_code == "PPLC"@
                            ==> g.places[k].feature_code == "PPLC"@ && g.places[j].population
                            <= g.places[k].population),
            }
        }),
{
    let key = common_name(norm);
    lemma_common_name(norm);
    lemma_country_named(g.countries, key);
    if let Some(c) = country_named(g.countries, key) {
        let i = choose|i: int| 0 <= i < g.countries.len() && g.countries[i] == c;
        let marked = |p: PlaceModel| p.country == c.iso && p.feature_code == "PPLC"@;
        let named = |p: PlaceModel|
            p.country == c.iso && goes_by(g.names, p.geonameid, normalized(c.capital));
        law_most_populous_place(g.places, marked);
        law_most_populous_place(g.places, named);
        match most_populous(g.places, marked) {
            Some(p) => {
                let k = choose|k: int| 0 <= k < g.places.len() && g.places[k] == p;
                assert forall|j: int|
                    0 <= j < g.places.len() && #[trigger] g.places[j].country == c.iso
                        && g.places[j].feature_code == "PPLC"@ implies g.places[k].feature_code
                    == "PPLC"@ && g.places[j].population <= g.places[k].population by {
                    assert(marked(g.places[j]));
                }
                assert(g.countries[i].name_norm == key && g.places[k].country
                    == g.countries[i].iso);
            },
            None => {
                assert forall|j: int| 0 <= j < g.places.len() implies !(
                #[trigger] g.places[j].country == c.iso && g.places[j].feature_code == "PPLC"@) by {
                    assert(!marked(g.places[j]));
                }
                if most_populous(g.places, named) is None {
                    assert forall|j: int| 0 <= j < g.places.len() implies !(
                    #[trigger] g.places[j].country == c.iso && is_called(
                        g,
                        g.places[j],
                        normalized(c.capital),
                    )) by {
                        assert(!named(g.places[j]));
                    }
                }
                if let Some(p) = most_populous(g.places, named) {
                    let k = choose|k: int| 0 <= k < g.places.len() && g.places[k] == p;
                    assert(is_called(g, g.places[k], normalized(c.capital)));
                    assert(g.countries[i].name_norm == key && g.places[k].country
                        == g.countries[i].iso);
                }
            },
        }
    }
}

/// What a name stands for: a country before a place, a place before the part in front of the first
/// comma, which one is less sure of; a name of which nothing is left stands for none.
pub proof fn law_names_are_tried_in_turn(g: GazetteerModel, raw: Seq<char>)
    ensures
        ({
            let norm = normalized(raw);
            let head = normalized(pieces(raw, ',')[0]);
            let hit = name_hit(g, raw);
            &&& norm.len() == 0 ==> hit is None
            &&& norm.len() > 0 && country_hit(g, norm) is Some ==> hit == country_hit(g, norm)
            &&& norm.len() > 0 && country_hit(g, norm) is None && place_hit(g, norm) is Some ==> hit
                == place_hit(g, norm)
            &&& norm.len() > 0 && country_hit(g, norm) is None && place_hit(g, norm) is None ==> {
                &&& hit is Some <==> pieces(raw, ',').len() > 1 && byte_len(head) >= 3 && place_hit(
                    g,
                    head,
                ) is Some
                &&& hit is Some ==> hit->0.lat == place_hit(g, head)->0.lat && hit->0.lon
                    == place_hit(g, head)->0.lon && hit->0.confidence.rank() < place_hit(
                    g,
                    head,
                )->0.confidence.rank()
            }
        }),
{
    let head = normalized(pieces(raw, ',')[0]);
    law_place_name_stands_for_the_largest(g, head);
}

/// Of several names the surest hit counts: none is surer, and there is one wherever one of the
/// names has one.
pub proof fn law_surest_name_counts(g: GazetteerModel, names: Seq<Seq<char>>)
    ensures
        match surest(g, names) {
            None => forall|i: int| 0 <= i < names.len() ==> name_hit(g, #[trigger] names[i]) is None,
            Some(h) => {
                &&& exists|i: int| 0 <= i < names.len() && name_hit(g, #[trigger] names[i]) == Some(h)
                &&& forall|i: int|
                    0 <= i < names.len() && name_hit(g, #[trigger] names[i]) is Some ==> name_hit(
                        g,
                        names[i],
                    )->0.confidence.rank() <= h.confidence.rank()
            },
        },
    decreases names.len(),
{
    if names.len() > 0 {
        let most = names.drop_last();
        let n = names.len() - 1;
        law_surest_name_counts(g, most);
        assert(names[n] == names.last());
        assert forall|i: int| 0 <= i < n implies #[trigger] names[i] == most[i] by {}
        if let Some(b) = surest(g, most) {
            let i = choose|i: int|
                0 <= i < most.len() && name_hit(g, #[trigger] most[i]) == Some(b);
            assert(names[i] == most[i]);
        }
        match surest(g, names) {
            None => {
                assert forall|i: int| 0 <= i < names.len() implies name_hit(
                    g,
                    #[trigger] names[i],
                ) is None by {
                    if i < n {
                        assert(most[i] == names[i]);
                    }
                }
            },
            Some(h) => {
                assert forall|i: int|
                    0 <= i < names.len() && name_hit(
                        g,
                        #[trigger] names[i],
                    ) is Some implies name_hit(g, names[i])->0.confidence.rank()
                    <= h.confidence.rank() by {
                    if i < n {
                        assert(most[i] == names[i]);
                    }
                }
            },
        }
    }
}

// ---------------------------------------------------------------------------------------------
// Entities

/// The entity is to be placed: it is a live location, and has no place yet unless all are asked
/// for.
pub open spec fn is_to_be_placed(before: Seq<GeoModel>, e: EntityModel, all: bool) -> bool {
    &&& e.entity_type == "location"@
    &&& e.is_live
    &&& all || forall|i: int| 0 <= i < before.len() ==> (#[trigger] before[i]).entity_id != e.id
}

/// What geocoding does to the places. Every location that is to be placed has one afterwards where
/// one of its names stands for a place. No other entity gets one, and none loses one. It counts
/// those that it looked at and those that it placed.
pub proof fn law_geocoding_places_the_locations(
    before: Seq<GeoModel>,
    es: Seq<EntityModel>,
    g: GazetteerModel,
    all: bool,
    now: Seq<char>,
    id: Seq<char>,
)
    ensures
        ({
            let (geo, stats) = geocoded(before, es, g, all, now);
            let placed = exists|i: int|
                0 <= i < es.len() && (#[trigger] es[i]).id == id && is_to_be_placed(
                    before,
                    es[i],
                    all,
                ) && surest(g, all_names(es[i])) is Some;
            &&& is_placed(geo, id) <==> is_placed(before, id) || placed
            &&& !placed ==> forall|row: GeoModel|
                row.entity_id == id ==> (#[trigger] geo.contains(row) <==> before.contains(row))
            &&& stats.geocoded <= stats.considered
            &&& stats.geocoded > 0 ==> exists|i: int|
                0 <= i < es.len() && is_to_be_placed(before, #[trigger] es[i], all)
        }),
    decreases es.len(),
{
    if es.len() > 0 {
        let most = es.drop_last();
        let e = es.last();
        let n = es.len() - 1;
        law_geocoding_places_the_locations(before, most, g, all, now, id);
        let (geo0, stats0) = geocoded(before, most, g, all, now);
        let (geo, stats) = geocoded(before, es, g, all, now);
        assert(es[n] == e);
        assert forall|i: int| 0 <= i < n implies #[trigger] es[i] == most[i] by {}
        let placed0 = exists|i: int|
            0 <= i < most.len() && (#[trigger] most[i]).id == id && is_to_be_placed(
                before,
                most[i],
                all,
            ) && surest(g, all_names(most[i])) is Some;
        let placed = exists|i: int|
            0 <= i < es.len() && (#[trigger] es[i]).id == id && is_to_be_placed(
                before,
                es[i],
                all,
            ) && surest(g, all_names(es[i])) is Some;
        let now_placed = e.id == id && is_to_be_placed(before, e, all) && surest(
            g,
            all_names(e),
        ) is Some;
        assert(placed <==> placed0 || now_placed) by {
            if placed0 {
                let i = choose|i: int|
                    0 <= i < most.len() && (#[trigger] most[i]).id == id && is_to_be_placed(
                        before,
                        most[i],
                        all,
                    ) && surest(g, all_names(most[i])) is Some;
                assert(es[i] == most[i]);
            }
            if placed && !now_placed {
                let i = choose|i: int|
                    0 <= i < es.len() && (#[trigger] es[i]).id == id && is_to_be_placed(
                        before,
                        es[i],
                        all,
                    ) && surest(g, all_names(es[i])) is Some;
                assert(most[i] == es[i]);
            }
        }
        assert(wants_place(before, e, all) <==> is_to_be_placed(before, e, all));
        if stats0.geocoded > 0 {
            let i = choose|i: int|
                0 <= i < most.len() && is_to_be_placed(before, #[trigger] most[i], all);
            assert(es[i] == most[i]);
        }
        if wants_place(before, e, all) {
            if let Some(h) = surest(g, all_names(e)) {
                let row = geo_row(e.id, h, now);
                lemma_with_place(geo0, row, id);
                if e.id != id {
                    assert forall|x: GeoModel| x.entity_id == id implies (#[trigger] geo.contains(x)
                        <==> geo0.contains(x)) by {
                        lemma_with_place_rows(geo0, row, x);
                    }
                }
            }
        }
    }
}

proof fn lemma_with_place(geo: Seq<GeoModel>, row: GeoModel, id: Seq<char>)
    ensures
        is_placed(with_place(geo, row), id) <==> is_placed(geo, id) || row.entity_id == id,
{
    let after = with_place(geo, row);
    if is_placed(geo, id) {
        let i = choose|i: int| 0 <= i < geo.len() && (#[trigger] geo[i]).entity_id == id;
        assert(after[i].entity_id == id);
    }
    if row.entity_id == id && !is_placed(geo, id) {
        assert(after[geo.len() as int].entity_id == id);
    }
    if is_placed(after, id) && row.entity_id != id {
        let i = choose|i: int| 0 <= i < after.len() && (#[trigger] after[i]).entity_id == id;
        assert(geo[i].entity_id == id);
    }
}

proof fn lemma_with_place_rows(geo: Seq<GeoModel>, row: GeoModel, x: GeoModel)
    requires
        x.entity_id != row.entity_id,
    ensures
        with_place(geo, row).contains(x) <==> geo.contains(x),
{
    let after = with_place(geo, row);
    if geo.contains(x) {
        let i = choose|i: int| 0 <= i < geo.len() && geo[i] == x;
        assert(after[i] == x);
    }
    if after.contains(x) {
        let i = choose|i: int| 0 <= i < after.len() && after[i] == x;
        assert(geo[i] == x);
    }
}

/// What is shown on a map: the places of live entities, each with what is stored of the entity and
/// of the place, and no other.
pub proof fn law_map_shows_the_live(geo: Seq<GeoModel>, es: Seq<EntityModel>, f: FeatureModel)
    ensures
        shown_features(geo, es).contains(f) <==> exists|i: int|
            0 <= i < geo.len() && entity_of(es, (#[trigger] geo[i]).entity_id) is Some && entity_of(
                es,
                geo[i].entity_id,
            )->0.is_live && f == (FeatureModel {
                id: entity_of(es, geo[i].entity_id)->0.id,
                name: entity_of(es, geo[i].entity_id)->0.canonical_name,
                entity_type: entity_of(es, geo[i].entity_id)->0.entity_type,
                confidence: entity_of(es, geo[i].entity_id)->0.confidence,
                lat: geo[i].lat,
                lon: geo[i].lon,
                geo_confidence: geo[i].geo_confidence,
                place: geo[i].place_name,
            }),
    decreases geo.len(),
{
    if geo.len() > 0 {
        let most = geo.drop_last();
        let row = geo.last();
        law_map_shows_the_live(most, es, f);
        assert(geo[geo.len() - 1] == row);
        assert forall|i: int| 0 <= i < most.len() implies #[trigger] geo[i] == most[i] by {}
        if let Some(e) = entity_of(es, row.entity_id) {
            let shown = FeatureModel {
                id: e.id,
                name: e.canonical_name,
                entity_type: e.entity_type,
                confidence: e.confidence,
                lat: row.lat,
                lon: row.lon,
                geo_confidence: row.geo_confidence,
                place: row.place_name,
            };
            lemma_push_has(shown_features(most, es), shown, f);
        }
        if shown_features(most, es).contains(f) {
            let i = choose|i: int|
                0 <= i < most.len() && entity_of(es, (#[trigger] most[i]).entity_id) is Some
                    && entity_of(es, most[i].entity_id)->0.is_live && f == (FeatureModel {
                    id: entity_of(es, most[i].entity_id)->0.id,
                    name: entity_of(es, most[i].entity_id)->0.canonical_name,
                    entity_type: entity_of(es, most[i].entity_id)->0.entity_type,
                    confidence: entity_of(es, most[i].entity_id)->0.confidence,
                    lat: most[i].lat,
                    lon: most[i].lon,
                    geo_confidence: most[i].geo_confidence,
                    place: most[i].place_name,
                });
            assert(geo[i] == most[i]);
        }
    }
}

// ---------------------------------------------------------------------------------------------
// The gazetteer

/// A line of places: one of fifteen fields or more with a number and coordinates is a place, with
/// what stands in its columns; its population counts as zero where it is no number.
pub proof fn law_lines_of_places(line: Seq<char>, coords: Option<(Double, Double)>)
    ensures
        ({
            let f = pieces(line, '\t');
            let id = crate::text::integer_of(f[0]);
            match crate::geo::place_of(line, coords) {
                Some(p) => {
                    &&& f.len() >= 15
                    &&& id == Some(p.geonameid)
                    &&& coords == Some((p.lat, p.lon))
                    &&& p.name == f[1]
                    &&& p.ascii == f[2]
                    &&& p.feature_code == f[7]
                    &&& p.country == f[8]
                    &&& crate::text::integer_of(f[14]) is Some ==> Some(p.population)
                        == crate::text::integer_of(f[14])
                    &&& crate::text::integer_of(f[14]) is None ==> p.population == 0
                },
                None => f.len() < 15 || id is None || coords is None,
            }
        }),
        crate::geo::coord_texts(line) is Some <==> pieces(line, '\t').len() >= 15,
        crate::geo::coord_texts(line) matches Some((lat, lon)) ==> lat == pieces(line, '\t')[4]
            && lon == pieces(line, '\t')[5],
{
}

proof fn lemma_alternates(names: Seq<Seq<char>>, n: Seq<char>)
    ensures
        crate::geo::alternates(names).contains(n) <==> byte_len(n) >= 3 && exists|i: int|
            0 <= i < names.len() && normalized(#[trigger] names[i]) == n,
    decreases names.len(),
{
    if names.len() > 0 {
        let most = names.drop_last();
        lemma_alternates(most, n);
        lemma_push_has(crate::geo::alternates(most), normalized(names.last()), n);
        assert(names[names.len() - 1] == names.last());
        assert forall|i: int| 0 <= i < most.len() implies #[trigger] names[i] == most[i] by {}
        if exists|i: int| 0 <= i < most.len() && normalized(#[trigger] most[i]) == n {
            let i = choose|i: int| 0 <= i < most.len() && normalized(#[trigger] most[i]) == n;
            assert(names[i] == most[i]);
        }
    }
}

/// The names of a place: its name, its plain name and its alternate names of three bytes or more,
/// all normalized.
pub proof fn law_names_of_places(line: Seq<char>, n: Seq<char>)
    ensures
        ({
            let f = pieces(line, '\t');
            let alternates = pieces(f[3], ',');
            crate::geo::line_names(line).contains(n) <==> n == normalized(f[1]) || n == normalized(
                f[2],
            ) || (byte_len(n) >= 3 && exists|i: int|
                0 <= i < alternates.len() && normalized(#[trigger] alternates[i]) == n)
        }),
{
    let f = pieces(line, '\t');
    let own = seq![normalized(f[1]), normalized(f[2])];
    let more = crate::geo::alternates(pieces(f[3], ','));
    let all = own + more;
    crate::laws::resolution::lemma_sorted_has(all, n);
    lemma_alternates(pieces(f[3], ','), n);
    if all.contains(n) {
        let k = choose|k: int| 0 <= k < all.len() && all[k] == n;
        if k >= 2 {
            assert(more[k - 2] == n);
        }
    }
    assert(all[0] == normalized(f[1]) && all[1] == normalized(f[2]));
    if more.contains(n) {
        let k = choose|k: int| 0 <= k < more.len() && more[k] == n;
        assert(all[k + 2] == n);
    }
}

/// A line of countries: comments and blank lines are none, nor is one of fewer than six fields; the
/// columns hold the code, the name and the capital.
pub proof fn law_lines_of_countries(line: Seq<char>)
    ensures
        ({
            let f = pieces(line, '\t');
            match crate::geo::country_of(line) {
                Some(c) => {
                    &&& f.len() >= 6
                    &&& c.iso == f[0]
                    &&& c.name == f[4]
                    &&& c.name_norm == normalized(f[4])
                    &&& c.capital == f[5]
                    &&& line.len() > 0 ==> line[0] != '#'
                },
                None => f.len() < 6 || crate::text::trim(line).len() == 0 || line[0] == '#',
            }
        }),
{
}

proof fn lemma_name_rows(names: Seq<Seq<char>>, id: i64, n: NameModel)
    ensures
        name_rows(names, id).contains(n) <==> n.geonameid == id && n.name_norm.len() > 0
            && names.contains(n.name_norm),
    decreases names.len(),
{
    if names.len() > 0 {
        let most = names.drop_last();
        lemma_name_rows(most, id, n);
        assert(most.push(names.last()) =~= names);
        lemma_push_has(most, names.last(), n.name_norm);
        lemma_push_has(
            name_rows(most, id),
            NameModel { name_norm: names.last(), geonameid: id },
            n,
        );
        let row = NameModel { name_norm: names.last(), geonameid: id };
        if n.geonameid == id && n.name_norm == names.last() {
            assert(n == row);
        }
    }
}

/// What is read of a file of places: the places of its lines that are of one, and for each of them
/// its names that are not empty; nothing else.
pub proof fn law_gazetteer_has_the_places(
    ls: Seq<Seq<char>>,
    coords: Seq<Option<(Double, Double)>>,
    n: NameModel,
)
    requires
        coords.len() == ls.len(),
    ensures
        ({
            let (places, names) = places_of(ls, coords);
            &&& forall|i: int|
                0 <= i < ls.len() ==> (place_of(#[trigger] ls[i], coords[i]) matches Some(p)
                    ==> places.contains(p))
            &&& forall|j: int|
                0 <= j < places.len() ==> exists|i: int|
                    0 <= i < ls.len() && place_of(#[trigger] ls[i], coords[i]) == Some(
                        #[trigger] places[j],
                    )
            &&& names.contains(n) <==> n.name_norm.len() > 0 && exists|i: int|
                0 <= i < ls.len() && (place_of(#[trigger] ls[i], coords[i]) matches Some(p)
                    && p.geonameid == n.geonameid) && line_names(ls[i]).contains(n.name_norm)
        }),
    decreases ls.len(),
{
    if ls.len() > 0 {
        let most = ls.drop_last();
        let known = coords.drop_last();
        lemma_lines_read(most, coords, known);
        law_gazetteer_has_the_places(most, known, n);
        let (before_places, before_names) = places_of(most, known);
        let (places, names) = places_of(ls, coords);
        let last = ls.len() - 1;
        assert(ls[last] == ls.last());
        assert forall|i: int| 0 <= i < most.len() implies #[trigger] ls[i] == most[i] && coords[i]
            == known[i] by {}
        match place_of(ls[last], coords[last]) {
            Some(p) => {
                let more = name_rows(line_names(ls[last]), p.geonameid);
                assert(places == before_places.push(p));
                assert(places.last() == p);
                lemma_name_rows(line_names(ls[last]), p.geonameid, n);
                assert(names == before_names + more);
                if before_names.contains(n) {
                    let k = before_names.index_of(n);
                    assert(names[k] == n);
                }
                if more.contains(n) {
                    let k = more.index_of(n);
                    assert(names[before_names.len() + k] == n);
                }
                if names.contains(n) {
                    let k = names.index_of(n);
                    if k < before_names.len() {
                        assert(before_names[k] == n);
                    } else {
                        assert(more[k - before_names.len()] == n);
                    }
                }
                assert forall|i: int| 0 <= i < ls.len() implies (place_of(
                    #[trigger] ls[i],
                    coords[i],
                ) matches Some(q) ==> places.contains(q)) by {
                    lemma_push_has(before_places, p, place_of(ls[i], coords[i])->0);
                    if i < last {
                        assert(ls[i] == most[i]);
                    }
                }
                assert forall|j: int| 0 <= j < places.len() implies exists|i: int|
                    0 <= i < ls.len() && place_of(#[trigger] ls[i], coords[i]) == Some(
                        #[trigger] places[j],
                    ) by {
                    if j < before_places.len() {
                        assert(places[j] == before_places[j]);
                        let i = choose|i: int|
                            0 <= i < most.len() && place_of(#[trigger] most[i], known[i]) == Some(
                                before_places[j],
                            );
                        assert(ls[i] == most[i]);
                    } else {
                        assert(place_of(ls[last], coords[last]) == Some(places[j]));
                    }
                }
            },
            None => {
                assert forall|j: int| 0 <= j < places.len() implies exists|i: int|
                    0 <= i < ls.len() && place_of(#[trigger] ls[i], coords[i]) == Some(
                        #[trigger] places[j],
                    ) by {
                    let i = choose|i: int|
                        0 <= i < most.len() && place_of(#[trigger] most[i], known[i]) == Some(
                            before_places[j],
                        );
                    assert(ls[i] == most[i]);
                }
            },
        }
        if before_names.contains(n) {
            let i = choose|i: int|
                0 <= i < most.len() && (place_of(#[trigger] most[i], known[i]) matches Some(p)
                    && p.geonameid == n.geonameid) && line_names(most[i]).contains(n.name_norm);
            assert(ls[i] == most[i]);
        }
    }
}

proof fn lemma_lines_read(
    ls: Seq<Seq<char>>,
    a: Seq<Option<(Double, Double)>>,
    b: Seq<Option<(Double, Double)>>,
)
    requires
        ls.len() <= a.len(),
        ls.len() <= b.len(),
        forall|i: int| 0 <= i < ls.len() ==> #[trigger] a[i] == b[i],
    ensures
        places_of(ls, a) == places_of(ls, b),
    decreases ls.len(),
{
    if ls.len() > 0 {
        lemma_lines_read(ls.drop_last(), a, b);
        assert(a[ls.len() - 1] == b[ls.len() - 1]);
    }
}

/// What is read of a file of countries: the countries of its lines that are of one, nothing else.
pub proof fn law_gazetteer_has_the_countries(ls: Seq<Seq<char>>, c: CountryModel)
    ensures
        countries_of(ls).contains(c) <==> exists|i: int|
            0 <= i < ls.len() && country_of(#[trigger] ls[i]) == Some(c),
    decreases ls.len(),
{
    if ls.len() > 0 {
        let most = ls.drop_last();
        law_gazetteer_has_the_countries(most, c);
        assert(ls[ls.len() - 1] == ls.last());
        if let Some(d) = country_of(ls.last()) {
            lemma_push_has(countries_of(most), d, c);
        }
        if countries_of(most).contains(c) {
            let i = choose|i: int|
                0 <= i < most.len() && country_of(#[trigger] most[i]) == Some(c);
            assert(ls[i] == most[i]);
        }
        assert forall|i: int| 0 <= i < most.len() implies #[trigger] ls[i] == most[i] by {}
    }
}

} // verus!
