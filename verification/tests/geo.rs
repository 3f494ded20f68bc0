use enargeia::double::Double;
use enargeia::geo::{
    coordinate_texts, country_synonym, ensure_err, features, geocode_entities_at, load_gazetteer,
    places_text, resolve_name, status, ArchiveFault, Gazetteer,
};
use enargeia::resolve::create_entity;
use enargeia::watch::{housekeep, Digest};
use enargeia::world::World;

const CITIES: &str = "1\tParis\tParis\tParigi,Lutece,Pa\t48.85\t2.35\tP\tPPLC\tFR\t\t\t\t\t\t2000000\n\
2\tParis\tParis\t\t33.66\t-95.55\tP\tPPL\tUS\t\t\t\t\t\t25000\n\
3\tAustin\tAustin\t\t30.27\t-97.74\tP\tPPLA\tUS\t\t\t\t\t\tmany\n\
x\tNowhere\tNowhere\t\t1\t1\tP\tPPL\tUS\t\t\t\t\t\t1\n\
4\tNoCoord\tNoCoord\t\tnorth\t1\tP\tPPL\tUS\t\t\t\t\t\t1\n\
short\tline\n";
const COUNTRIES: &str =
    "# comment\n\nFR\tFRA\t250\tFR\tFrance\tParis\nUS\tUSA\t840\tUS\tUnited States\tAustin\nXX\tshort\n";

fn gazetteer() -> (Gazetteer, (usize, usize, usize)) {
    let coords: Vec<Option<(Double, Double)>> = coordinate_texts(CITIES)
        .into_iter()
        .map(|t| {
            let (lat, lon) = t?;
            let (lat, lon): (f64, f64) = (lat.parse().ok()?, lon.parse().ok()?);
            Some((Double { bits: lat.to_bits() }, Double { bits: lon.to_bits() }))
        })
        .collect();
    load_gazetteer(CITIES, &coords, COUNTRIES)
}

fn number(d: Double) -> f64 {
    f64::from_bits(d.bits)
}

#[test]
fn gazetteer_keeps_the_lines_that_read() {
    let (g, counts) = gazetteer();
    assert_eq!(counts, (3, 5, 2));
    assert_eq!(g.places[2].population, 0);
    let names: Vec<(&str, i64)> =
        g.names.iter().map(|n| (n.name_norm.as_str(), n.geonameid)).collect();
    assert_eq!(
        names,
        vec![("lutece", 1), ("parigi", 1), ("paris", 1), ("paris", 2), ("austin", 3)]
    );
}

#[test]
fn names_resolve_to_countries_places_and_segments() {
    let (g, _) = gazetteer();
    let hit = resolve_name(&g, "France").unwrap();
    assert_eq!(hit.place, "France (capital: Paris)");
    assert_eq!(number(hit.confidence), 0.9);
    // No capital is marked: the place that bears its name stands in.
    let hit = resolve_name(&g, "U.S.A.").unwrap();
    assert_eq!(hit.place, "United States (capital: Austin)");
    let hit = resolve_name(&g, "Paris").unwrap();
    assert_eq!((hit.geonameid, hit.place.as_str()), (Some(1), "Paris, FR"));
    assert_eq!(number(hit.confidence), 0.6);
    assert_eq!(number(resolve_name(&g, "LUTECE").unwrap().confidence), 0.8);
    let hit = resolve_name(&g, "Austin, Texas").unwrap();
    assert_eq!(number(hit.confidence), 0.8 * 0.8);
    assert_eq!(number(resolve_name(&g, "Paris, Texas").unwrap().confidence), 0.6 * 0.8);
    assert!(resolve_name(&g, "Atlantis, Sea").is_none());
    assert!(resolve_name(&g, "?!").is_none());
    assert_eq!(country_synonym("great britain"), Some("united kingdom"));
    assert_eq!(country_synonym("france"), None);
}

#[test]
fn coordinates_stay_unless_all_are_asked_for() {
    let (g, _) = gazetteer();
    let mut w = World::new();
    let id = create_entity(&mut w, "Austin", "location", Double { bits: 0 });
    create_entity(&mut w, "Atlantis", "location", Double { bits: 0 });
    create_entity(&mut w, "Paris", "organization", Double { bits: 0 });
    let stats = geocode_entities_at(&mut w, &g, false, "2026-01-01");
    assert_eq!((stats.considered, stats.geocoded), (2, 1));
    assert_eq!(w.geo[0].entity_id, id);
    assert_eq!(number(w.geo[0].lat), 30.27);
    let stats = geocode_entities_at(&mut w, &g, false, "2026-02-01");
    assert_eq!((stats.considered, stats.geocoded), (1, 0));
    assert_eq!(w.geo[0].geocoded_at, "2026-01-01");
    let stats = geocode_entities_at(&mut w, &g, true, "2026-02-01");
    assert_eq!((stats.considered, stats.geocoded), (2, 1));
    assert_eq!(w.geo.len(), 1);
    assert_eq!(w.geo[0].geocoded_at, "2026-02-01");
    assert_eq!(features(&w).len(), 1);
    assert_eq!(features(&w)[0].place.as_deref(), Some("Austin, US"));
    assert_eq!(status(&w, &g), (3, 2, 1));
}

#[test]
fn cycle_expires_and_geocodes() {
    let (g, _) = gazetteer();
    let mut w = World::new();
    create_entity(&mut w, "Austin", "location", Double { bits: 0 });
    create_entity(&mut w, "Old Corp", "organization", Double { bits: 0 });
    w.entities[1].expiry_time = Some("2000-01-01".to_string());
    let mut d = Digest::begin("2026-01-01");
    housekeep(&mut d, &mut w, &g, "2026-01-01");
    assert_eq!((d.expired, d.geocoded), (1, 1));
}

#[test]
fn errors_carry_their_message() {
    assert_eq!(ensure_err("no gazetteer").message, "no gazetteer");
}

fn archive(name: &str, bytes: &[u8]) -> Vec<u8> {
    let mut zip = zip::ZipWriter::new(std::io::Cursor::new(Vec::new()));
    zip.start_file(name, zip::write::SimpleFileOptions::default()).unwrap();
    std::io::Write::write_all(&mut zip, bytes).unwrap();
    zip.finish().unwrap().into_inner()
}

#[test]
fn places_come_out_of_their_archive() {
    let text = "2988507\tParis\tParis\n".repeat(50);
    assert_eq!(places_text(&archive("cities15000.txt", text.as_bytes())).unwrap(), text);
}

#[test]
fn broken_archives_are_refused() {
    let fault = |bytes: Vec<u8>| places_text(&bytes).err().unwrap();
    assert!(fault(vec![1, 2, 3]) == ArchiveFault::NotAnArchive);
    assert!(fault(Vec::new()) == ArchiveFault::NotAnArchive);
    assert!(fault(archive("other.txt", b"x")) == ArchiveFault::NoSuchMember);
    assert!(fault(archive("cities15000.txt", &[0xff, 0xfe])) == ArchiveFault::Unreadable);
    assert_eq!(ArchiveFault::NotAnArchive.message(), "opening cities15000.zip");
    assert_eq!(ArchiveFault::NoSuchMember.message(), "cities15000.txt missing from zip");
    assert_eq!(ArchiveFault::Unreadable.message(), "reading cities15000.txt");
}
