//! Geocoding for location-type entities against a GeoNames gazetteer (cities15000 + countryInfo;
//! CC BY 4.0). Countries resolve to their capital; places resolve by exact normalized name (name,
//! ASCII name, or any alternate name), preferring population.

use vstd::prelude::*;
use vstd::string::*;

use crate::context::{all_names, names_of};
use crate::double::Double;
use crate::matcher::{byte_len, normalize, normalized};
use crate::models::{is_instant, now, rows, EntityModel};
use crate::order::{sort_texts, sorted_texts};
use crate::resolve::{count_one, one_more};
use crate::text::{
    chars_of, integer_of, lines, opt_copy, opt_view, pieces, read_integer, split_at_char,
    split_lines, str_eq, trim, trimmed, views,
};
use crate::world::{entity_of, find_entity, GeoModel, GeoRow, World, WorldModel};

verus! {

pub const CITIES_URL: &'static str = "https://download.geonames.org/export/dump/cities15000.zip";

pub const COUNTRIES_URL: &'static str = "https://download.geonames.org/export/dump/countryInfo.txt";

/// The directory of the gazetteer where none is configured.
pub const DEFAULT_DIR: &'static str = "data/geonames";

/// Something is missing that geocoding needs.
#[derive(Debug)]
pub struct GeoError {
    pub message: String,
}

pub fn ensure_err(msg: &str) -> (r: GeoError)
    ensures
        r.message@ == msg@,
{
    GeoError { message: msg.to_owned() }
}

// ---------------------------------------------------------------------------------------------
// The archive

/// The member of the archive that holds the places.
pub const CITIES_FILE: &'static str = "cities15000.txt";

/// Why a member of an archive cannot be had.
#[derive(Clone, Copy, Debug, PartialEq, Eq, Structural)]
pub enum ArchiveFault {
    /// The bytes are no archive.
    NotAnArchive,
    /// The archive has no such member.
    NoSuchMember,
    /// The member does not unpack to text.
    Unreadable,
}

impl ArchiveFault {
    pub fn message(&self) -> (r: String)
        ensures
            r@ == match self {
                ArchiveFault::NotAnArchive => "opening cities15000.zip"@,
                ArchiveFault::NoSuchMember => "cities15000.txt missing from zip"@,
                ArchiveFault::Unreadable => "reading cities15000.txt"@,
            },
    {
        match self {
            ArchiveFault::NotAnArchive => "opening cities15000.zip".to_owned(),
            ArchiveFault::NoSuchMember => "cities15000.txt missing from zip".to_owned(),
            ArchiveFault::Unreadable => "reading cities15000.txt".to_owned(),
        }
    }
}

/// The text of a member of a ZIP archive, or why it cannot be had.
pub uninterp spec fn unzipped(archive: Seq<u8>, member: Seq<char>) -> Result<
    Seq<char>,
    ArchiveFault,
>;

/// `zip::ZipArchive::new` on the bytes, `by_name`, and the member read to its end as text: a
/// function of the bytes and the name.
#[verifier::external_body]
fn unzip(archive: &Vec<u8>, member: &str) -> (r: Result<String, ArchiveFault>)
    ensures
        match r {
            Ok(text) => unzipped(archive@, member@) == Ok::<Seq<char>, ArchiveFault>(text@),
            Err(f) => unzipped(archive@, member@) == Err::<Seq<char>, ArchiveFault>(f),
        },
{
    let bytes = std::io::Cursor::new(archive.as_slice());
    let mut zip = zip::ZipArchive::new(bytes).map_err(|_| ArchiveFault::NotAnArchive)?;
    let mut file = zip.by_name(member).map_err(|_| ArchiveFault::NoSuchMember)?;
    let mut text = String::new();
    match std::io::Read::read_to_string(&mut file, &mut text) {
        Ok(_) => Ok(text),
        Err(_) => Err(ArchiveFault::Unreadable),
    }
}

/// The table of places that a downloaded archive holds.
pub fn places_text(archive: &Vec<u8>) -> (r: Result<String, ArchiveFault>)
    ensures
        match r {
            Ok(text) => unzipped(archive@, CITIES_FILE@) == Ok::<Seq<char>, ArchiveFault>(text@),
            Err(f) => unzipped(archive@, CITIES_FILE@) == Err::<Seq<char>, ArchiveFault>(f),
        },
{
    unzip(archive, CITIES_FILE)
}

// ---------------------------------------------------------------------------------------------
// The gazetteer

/// A populated place.
#[derive(Debug)]
pub struct Place {
    pub geonameid: i64,
    pub name: String,
    pub ascii: String,
    pub lat: Double,
    pub lon: Double,
    pub country: String,
    pub feature_code: String,
    pub population: i64,
}

#[verifier::ext_equal]
pub struct PlaceModel {
    pub geonameid: i64,
    pub name: Seq<char>,
    pub ascii: Seq<char>,
    pub lat: Double,
    pub lon: Double,
    pub country: Seq<char>,
    pub feature_code: Seq<char>,
    pub population: i64,
}

impl View for Place {
    type V = PlaceModel;

    open spec fn view(&self) -> PlaceModel {
        PlaceModel {
            geonameid: self.geonameid,
            name: self.name@,
            ascii: self.ascii@,
            lat: self.lat,
            lon: self.lon,
            country: self.country@,
            feature_code: self.feature_code@,
            population: self.population,
        }
    }
}

/// A name under which a place is found.
#[derive(Debug)]
pub struct PlaceName {
    pub name_norm: String,
    pub geonameid: i64,
}

#[verifier::ext_equal]
pub struct NameModel {
    pub name_norm: Seq<char>,
    pub geonameid: i64,
}

impl View for PlaceName {
    type V = NameModel;

    open spec fn view(&self) -> NameModel {
        NameModel { name_norm: self.name_norm@, geonameid: self.geonameid }
    }
}

/// A country.
#[derive(Debug)]
pub struct Country {
    pub iso: String,
    pub name_norm: String,
    pub name: String,
    pub capital: String,
}

#[verifier::ext_equal]
pub struct CountryModel {
    pub iso: Seq<char>,
    pub name_norm: Seq<char>,
    pub name: Seq<char>,
    pub capital: Seq<char>,
}

impl View for Country {
    type V = CountryModel;

    open spec fn view(&self) -> CountryModel {
        CountryModel {
            iso: self.iso@,
            name_norm: self.name_norm@,
            name: self.name@,
            capital: self.capital@,
        }
    }
}

/// Where places and countries lie.
#[derive(Debug)]
pub struct Gazetteer {
    pub places: Vec<Place>,
    pub names: Vec<PlaceName>,
    pub countries: Vec<Country>,
}

#[verifier::ext_equal]
pub struct GazetteerModel {
    pub places: Seq<PlaceModel>,
    pub names: Seq<NameModel>,
    pub countries: Seq<CountryModel>,
}

impl View for Gazetteer {
    type V = GazetteerModel;

    open spec fn view(&self) -> GazetteerModel {
        GazetteerModel {
            places: rows(self.places@),
            names: rows(self.names@),
            countries: rows(self.countries@),
        }
    }
}

// ---------------------------------------------------------------------------------------------
// Loading

/// The coordinates that were read of a line, if any.
pub open spec fn coords_at(coords: Seq<Option<(Double, Double)>>, i: int) -> Option<
    (Double, Double),
> {
    if 0 <= i < coords.len() {
        coords[i]
    } else {
        None
    }
}

/// The place of a line of the places file, given its coordinates; nothing where the line is too
/// short, has no number or no coordinates.
pub open spec fn place_of(line: Seq<char>, coords: Option<(Double, Double)>) -> Option<PlaceModel> {
    let f = pieces(line, '\t');
    if f.len() < 15 {
        None
    } else {
        match (integer_of(f[0]), coords) {
            (Some(id), Some(c)) => Some(
                PlaceModel {
                    geonameid: id,
                    name: f[1],
                    ascii: f[2],
                    lat: c.0,
                    lon: c.1,
                    country: f[8],
                    feature_code: f[7],
                    population: match integer_of(f[14]) {
                        Some(n) => n,
                        None => 0,
                    },
                },
            ),
            _ => None,
        }
    }
}

/// The alternate names that are long enough, normalized.
pub open spec fn alternates(names: Seq<Seq<char>>) -> Seq<Seq<char>>
    decreases names.len(),
{
    if names.len() == 0 {
        seq![]
    } else {
        let n = normalized(names.last());
        if byte_len(n) >= 3 {
            alternates(names.drop_last()).push(n)
        } else {
            alternates(names.drop_last())
        }
    }
}

/// The names of a line of the places file: the name, the ASCII name and the alternate names,
/// normalized, sorted, each once.
pub open spec fn line_names(line: Seq<char>) -> Seq<Seq<char>> {
    let f = pieces(line, '\t');
    sorted_texts(seq![normalized(f[1]), normalized(f[2])] + alternates(pieces(f[3], ',')))
}

/// The rows of the names that are not empty.
pub open spec fn name_rows(names: Seq<Seq<char>>, id: i64) -> Seq<NameModel>
    decreases names.len(),
{
    if names.len() == 0 {
        seq![]
    } else if names.last().len() == 0 {
        name_rows(names.drop_last(), id)
    } else {
        name_rows(names.drop_last(), id).push(
            NameModel { name_norm: names.last(), geonameid: id },
        )
    }
}

/// The places and names of the lines.
pub open spec fn places_of(
    ls: Seq<Seq<char>>,
    coords: Seq<Option<(Double, Double)>>,
) -> (Seq<PlaceModel>, Seq<NameModel>)
    decreases ls.len(),
{
    if ls.len() == 0 {
        (seq![], seq![])
    } else {
        let (places, names) = places_of(ls.drop_last(), coords);
        match place_of(ls.last(), coords_at(coords, ls.len() - 1)) {
            Some(p) => (
                places.push(p),
                names + name_rows(line_names(ls.last()), p.geonameid),
            ),
            None => (places, names),
        }
    }
}

/// The country of a line of the countries file, if it is no comment, not blank and long enough.
pub open spec fn country_of(line: Seq<char>) -> Option<CountryModel> {
    let f = pieces(line, '\t');
    if (line.len() > 0 && line[0] == '#') || trim(line).len() == 0 || f.len() < 6 {
        None
    } else {
        Some(CountryModel { iso: f[0], name_norm: normalized(f[4]), name: f[4], capital: f[5] })
    }
}

pub open spec fn countries_of(ls: Seq<Seq<char>>) -> Seq<CountryModel>
    decreases ls.len(),
{
    if ls.len() == 0 {
        seq![]
    } else {
        match country_of(ls.last()) {
            Some(c) => countries_of(ls.drop_last()).push(c),
            None => countries_of(ls.drop_last()),
        }
    }
}

/// The gazetteer of the two files.
pub open spec fn gazetteer(
    cities: Seq<char>,
    coords: Seq<Option<(Double, Double)>>,
    countries: Seq<char>,
) -> GazetteerModel {
    let (places, names) = places_of(lines(cities), coords);
    GazetteerModel { places, names, countries: countries_of(lines(countries)) }
}

/// The texts of the coordinates of a line of the places file: latitude and longitude.
pub open spec fn coord_texts(line: Seq<char>) -> Option<(Seq<char>, Seq<char>)> {
    let f = pieces(line, '\t');
    if f.len() < 15 {
        None
    } else {
        Some((f[4], f[5]))
    }
}

/// What optional pairs of texts hold.
pub open spec fn pair_view(o: Option<(String, String)>) -> Option<(Seq<char>, Seq<char>)> {
    match o {
        Some(p) => Some((p.0@, p.1@)),
        None => None,
    }
}

/// The texts of the coordinates, line by line: latitude and longitude as the file writes them.
pub fn coordinate_texts(cities: &str) -> (r: Vec<Option<(String, String)>>)
    ensures
        r@.len() == lines(cities@).len(),
        forall|i: int|
            0 <= i < r@.len() ==> pair_view(#[trigger] r@[i]) == coord_texts(lines(cities@)[i]),
{
    let ls = split_lines(cities);
    let ghost all = views(ls@);
    let mut out: Vec<Option<(String, String)>> = Vec::new();
    let mut i: usize = 0;
    while i < ls.len()
        invariant
            i <= ls@.len(),
            all == views(ls@),
            out@.len() == i,
            forall|j: int| 0 <= j < i ==> pair_view(#[trigger] out@[j]) == coord_texts(all[j]),
        decreases ls.len() - i,
    {
        let f = split_at_char(&chars_of(ls[i].as_str()), '\t');
        let ghost fv = views(f@);
        assert(fv.len() == f@.len());
        assert(fv == pieces(all[i as int], '\t'));
        if f.len() < 15 {
            out.push(None);
        } else {
            assert(fv[4] == f@[4]@ && fv[5] == f@[5]@);
            out.push(Some((f[4].clone(), f[5].clone())));
        }
        i += 1;
    }
    assert(all.len() == ls@.len());
    out
}

fn read_place(line: &str, coords: Option<(Double, Double)>) -> (r: Option<Place>)
    ensures
        match r {
            Some(p) => place_of(line@, coords) == Some(p@),
            None => place_of(line@, coords) is None,
        },
{
    let f = split_at_char(&chars_of(line), '\t');
    let ghost fv = views(f@);
    assert(fv.len() == f@.len());
    if f.len() < 15 {
        return None;
    }
    let id = match read_integer(f[0].as_str()) {
        Some(n) => n,
        None => {
            assert(fv[0] == f@[0]@);
            return None;
        },
    };
    let c = match coords {
        Some(c) => c,
        None => {
            return None;
        },
    };
    let population: i64 = match read_integer(f[14].as_str()) {
        Some(n) => n,
        None => 0,
    };
    assert(fv[0] == f@[0]@ && fv[1] == f@[1]@ && fv[2] == f@[2]@ && fv[7] == f@[7]@ && fv[8]
        == f@[8]@ && fv[14] == f@[14]@);
    let p = Place {
        geonameid: id,
        name: f[1].clone(),
        ascii: f[2].clone(),
        lat: c.0,
        lon: c.1,
        country: f[8].clone(),
        feature_code: f[7].clone(),
        population,
    };
    assert(p@ =~= place_of(line@, coords)->0);
    Some(p)
}

fn read_names(line: &str) -> (r: Vec<String>)
    requires
        pieces(line@, '\t').len() >= 15,
    ensures
        views(r@) == line_names(line@),
{
    let f = split_at_char(&chars_of(line), '\t');
    let ghost fv = views(f@);
    assert(fv.len() == f@.len());
    assert(fv[1] == f@[1]@ && fv[2] == f@[2]@ && fv[3] == f@[3]@);
    let mut names: Vec<String> = Vec::new();
    names.push(normalize(f[1].as_str()));
    names.push(normalize(f[2].as_str()));
    let alts = split_at_char(&chars_of(f[3].as_str()), ',');
    let ghost av = views(alts@);
    let ghost begin = seq![normalized(fv[1]), normalized(fv[2])];
    let mut i: usize = 0;
    assert(av.take(0) =~= seq![]);
    assert(views(names@) =~= begin + alternates(av.take(0)));
    while i < alts.len()
        invariant
            i <= alts@.len(),
            av == views(alts@),
            views(names@) == begin + alternates(av.take(i as int)),
        decreases alts.len() - i,
    {
        assert(av.take(i + 1).drop_last() =~= av.take(i as int));
        assert(av.take(i + 1).last() == alts@[i as int]@);
        let ghost done = views(names@);
        let n = normalize(alts[i].as_str());
        let ghost nv = n@;
        if n.as_str().as_bytes().len() >= 3 {
            names.push(n);
            assert(views(names@) =~= done.push(nv));
            assert(done.push(nv) =~= begin + alternates(av.take(i as int)).push(nv));
        }
        i += 1;
    }
    assert(av.take(i as int) =~= av);
    sort_texts(&names)
}

fn read_country(line: &str) -> (r: Option<Country>)
    ensures
        match r {
            Some(c) => country_of(line@) == Some(c@),
            None => country_of(line@) is None,
        },
{
    let cs = chars_of(line);
    let f = split_at_char(&cs, '\t');
    let ghost fv = views(f@);
    assert(fv.len() == f@.len());
    if (cs.len() > 0 && cs[0] == '#') || trimmed(line).as_str().is_empty() || f.len() < 6 {
        return None;
    }
    assert(fv[0] == f@[0]@ && fv[4] == f@[4]@ && fv[5] == f@[5]@);
    let c = Country {
        iso: f[0].clone(),
        name_norm: normalize(f[4].as_str()),
        name: f[4].clone(),
        capital: f[5].clone(),
    };
    assert(c@ =~= country_of(line@)->0);
    Some(c)
}

fn add_names(out: &mut Vec<PlaceName>, names: &Vec<String>, id: i64)
    ensures
        rows(final(out)@) == rows(old(out)@) + name_rows(views(names@), id),
{
    let ghost begin = rows(out@);
    let ghost all = views(names@);
    let mut i: usize = 0;
    assert(all.take(0) =~= seq![]);
    assert(rows(out@) =~= begin + name_rows(all.take(0), id));
    while i < names.len()
        invariant
            i <= names@.len(),
            all == views(names@),
            rows(out@) == begin + name_rows(all.take(i as int), id),
        decreases names.len() - i,
    {
        assert(all.take(i + 1).drop_last() =~= all.take(i as int));
        assert(all.take(i + 1).last() == names@[i as int]@);
        let ghost done = rows(out@);
        if !names[i].as_str().is_empty() {
            let row = PlaceName { name_norm: names[i].clone(), geonameid: id };
            let ghost rv = row@;
            out.push(row);
            assert(rows(out@) =~= done.push(rv));
            assert(done.push(rv) =~= begin + name_rows(all.take(i as int), id).push(rv));
        }
        i += 1;
    }
    assert(all.take(i as int) =~= all);
}

/// Reads the two files of the gazetteer, given the coordinates of the places, line by line. Returns
/// it with how many places, names and countries it holds.
pub fn load_gazetteer(
    cities: &str,
    coords: &Vec<Option<(Double, Double)>>,
    countries: &str,
) -> (r: (Gazetteer, (usize, usize, usize)))
    ensures
        r.0@ == gazetteer(cities@, coords@, countries@),
        r.1.0 == r.0@.places.len(),
        r.1.1 == r.0@.names.len(),
        r.1.2 == r.0@.countries.len(),
{
    let ls = split_lines(cities);
    let ghost all = views(ls@);
    let mut places: Vec<Place> = Vec::new();
    let mut names: Vec<PlaceName> = Vec::new();
    let mut i: usize = 0;
    assert(all.take(0) =~= seq![]);
    assert(rows(places@) =~= seq![]);
    assert(rows(names@) =~= seq![]);
    while i < ls.len()
        invariant
            i <= ls@.len(),
            all == views(ls@),
            (rows(places@), rows(names@)) == places_of(all.take(i as int), coords@),
        decreases ls.len() - i,
    {
        assert(all.take(i + 1).drop_last() =~= all.take(i as int));
        assert(all.take(i + 1).last() == ls@[i as int]@);
        let c = if i < coords.len() {
            coords[i]
        } else {
            None
        };
        assert(c == coords_at(coords@, i as int));
        let ghost done = rows(places@);
        if let Some(p) = read_place(ls[i].as_str(), c) {
            let id = p.geonameid;
            let ghost pv = p@;
            places.push(p);
            assert(rows(places@) =~= done.push(pv));
            add_names(&mut names, &read_names(ls[i].as_str()), id);
        }
        i += 1;
    }
    assert(all.take(i as int) =~= all);
    let cs = split_lines(countries);
    let ghost call = views(cs@);
    let mut list: Vec<Country> = Vec::new();
    let mut k: usize = 0;
    assert(call.take(0) =~= seq![]);
    assert(rows(list@) =~= seq![]);
    while k < cs.len()
        invariant
            k <= cs@.len(),
            call == views(cs@),
            rows(list@) == countries_of(call.take(k as int)),
        decreases cs.len() - k,
    {
        assert(call.take(k + 1).drop_last() =~= call.take(k as int));
        assert(call.take(k + 1).last() == cs@[k as int]@);
        let ghost done = rows(list@);
        if let Some(c) = read_country(cs[k].as_str()) {
            let ghost cv = c@;
            list.push(c);
            assert(rows(list@) =~= done.push(cv));
        }
        k += 1;
    }
    assert(call.take(k as int) =~= call);
    let counts = (places.len(), names.len(), list.len());
    (Gazetteer { places, names, countries: list }, counts)
}

// ---------------------------------------------------------------------------------------------
// Lookup

/// The formal name of a country that has common alternate spellings.
pub open spec fn synonym(norm: Seq<char>) -> Option<Seq<char>> {
    if norm == "us"@ || norm == "usa"@ || norm == "u s"@ || norm == "u s a"@ || norm
        == "united states of america"@ || norm == "america"@ {
        Some("united states"@)
    } else if norm == "uk"@ || norm == "u k"@ || norm == "britain"@ || norm == "great britain"@ {
        Some("united kingdom"@)
    } else if norm == "uae"@ || norm == "u a e"@ {
        Some("united arab emirates"@)
    } else if norm == "russia"@ {
        Some("russia"@)
    } else if norm == "south korea"@ || norm == "korea"@ {
        Some("south korea"@)
    } else if norm == "north korea"@ {
        Some("north korea"@)
    } else if norm == "czechia"@ || norm == "czech republic"@ {
        Some("czechia"@)
    } else if norm == "holland"@ || norm == "the netherlands"@ {
        Some("netherlands"@)
    } else {
        None
    }
}

/// Common alternate spellings for countries the gazetteer names formally.
pub fn country_synonym(norm: &str) -> (r: Option<&'static str>)
    ensures
        crate::text::opt_str(r) == synonym(norm@),
{
    if str_eq(norm, "us") || str_eq(norm, "usa") || str_eq(norm, "u s") || str_eq(norm, "u s a")
        || str_eq(norm, "united states of america") || str_eq(norm, "america") {
        Some("united states")
    } else if str_eq(norm, "uk") || str_eq(norm, "u k") || str_eq(norm, "britain") || str_eq(
        norm,
        "great britain",
    ) {
        Some("united kingdom")
    } else if str_eq(norm, "uae") || str_eq(norm, "u a e") {
        Some("united arab emirates")
    } else if str_eq(norm, "russia") {
        Some("russia")
    } else if str_eq(norm, "south korea") || str_eq(norm, "korea") {
        Some("south korea")
    } else if str_eq(norm, "north korea") {
        Some("north korea")
    } else if str_eq(norm, "czechia") || str_eq(norm, "czech republic") {
        Some("czechia")
    } else if str_eq(norm, "holland") || str_eq(norm, "the netherlands") {
        Some("netherlands")
    } else {
        None
    }
}

/// The bits of the doubles 0.9, 0.8, 0.6, and of the products of the latter two with 0.8: how sure
/// a country, a place, one of several places, and either of these by its leading segment is.
pub const COUNTRY_CONFIDENCE: u64 = 0x3feccccccccccccd;

pub const PLACE_CONFIDENCE: u64 = 0x3fe999999999999a;

pub const AMBIGUOUS_CONFIDENCE: u64 = 0x3fe3333333333333;

pub const SEGMENT_CONFIDENCE: u64 = 0x3fe47ae147ae147c;

pub const AMBIGUOUS_SEGMENT_CONFIDENCE: u64 = 0x3fdeb851eb851eb8;

/// Where a name lies.
#[derive(Debug)]
pub struct Hit {
    pub lat: Double,
    pub lon: Double,
    pub confidence: Double,
    pub geonameid: Option<i64>,
    pub place: String,
}

#[verifier::ext_equal]
pub struct HitModel {
    pub lat: Double,
    pub lon: Double,
    pub confidence: Double,
    pub geonameid: Option<i64>,
    pub place: Seq<char>,
}

impl View for Hit {
    type V = HitModel;

    open spec fn view(&self) -> HitModel {
        HitModel {
            lat: self.lat,
            lon: self.lon,
            confidence: self.confidence,
            geonameid: self.geonameid,
            place: self.place@,
        }
    }
}

pub open spec fn opt_hit(o: Option<Hit>) -> Option<HitModel> {
    match o {
        Some(h) => Some(h@),
        None => None,
    }
}

/// The place has the name.
pub open spec fn goes_by(names: Seq<NameModel>, id: i64, norm: Seq<char>) -> bool {
    exists|i: int|
        0 <= i < names.len() && (#[trigger] names[i]).geonameid == id && names[i].name_norm == norm
}

/// The most populous of the places that meet the condition, the first of equals.
pub open spec fn most_populous(
    ps: Seq<PlaceModel>,
    fits: spec_fn(PlaceModel) -> bool,
) -> Option<PlaceModel>
    decreases ps.len(),
{
    if ps.len() == 0 {
        None
    } else {
        let best = most_populous(ps.drop_last(), fits);
        let p = ps.last();
        if !fits(p) {
            best
        } else {
            match best {
                Some(b) => if p.population > b.population {
                    Some(p)
                } else {
                    Some(b)
                },
                None => Some(p),
            }
        }
    }
}

/// The first country of that normalized name.
pub open spec fn country_named(cs: Seq<CountryModel>, key: Seq<char>) -> Option<CountryModel>
    decreases cs.len(),
{
    if cs.len() == 0 {
        None
    } else if cs[0].name_norm == key {
        Some(cs[0])
    } else {
        country_named(cs.drop_first(), key)
    }
}

/// The capital of a country: the place that is marked as one, else the place of its name.
pub open spec fn capital_of(g: GazetteerModel, c: CountryModel) -> Option<PlaceModel> {
    match most_populous(
        g.places,
        |p: PlaceModel| p.country == c.iso && p.feature_code == "PPLC"@,
    ) {
        Some(p) => Some(p),
        None => most_populous(
            g.places,
            |p: PlaceModel|
                p.country == c.iso && goes_by(g.names, p.geonameid, normalized(c.capital)),
        ),
    }
}

/// Where a country lies: its capital stands in for it.
pub open spec fn country_hit(g: GazetteerModel, norm: Seq<char>) -> Option<HitModel> {
    let key = match synonym(norm) {
        Some(k) => k,
        None => norm,
    };
    match country_named(g.countries, key) {
        None => None,
        Some(c) => match capital_of(g, c) {
            None => None,
            Some(p) => Some(
                HitModel {
                    lat: p.lat,
                    lon: p.lon,
                    confidence: Double { bits: COUNTRY_CONFIDENCE },
                    geonameid: Some(p.geonameid),
                    place: c.name + " (capital: "@ + p.name + ")"@,
                },
            ),
        },
    }
}

/// The two rows say the same of a place.
pub open spec fn same_place(p: PlaceModel, q: PlaceModel) -> bool {
    p.geonameid == q.geonameid && p.lat == q.lat && p.lon == q.lon && p.name == q.name && p.country
        == q.country && p.population == q.population
}

/// Another place has the name too.
pub open spec fn is_ambiguous(g: GazetteerModel, norm: Seq<char>, p: PlaceModel) -> bool {
    exists|i: int|
        0 <= i < g.places.len() && goes_by(g.names, (#[trigger] g.places[i]).geonameid, norm)
            && !same_place(p, g.places[i])
}

/// Where a place lies: the most populous one of the name.
pub open spec fn place_hit(g: GazetteerModel, norm: Seq<char>) -> Option<HitModel> {
    match most_populous(g.places, |p: PlaceModel| goes_by(g.names, p.geonameid, norm)) {
        None => None,
        Some(p) => Some(
            HitModel {
                lat: p.lat,
                lon: p.lon,
                confidence: Double {
                    bits: if is_ambiguous(g, norm, p) {
                        AMBIGUOUS_CONFIDENCE
                    } else {
                        PLACE_CONFIDENCE
                    },
                },
                geonameid: Some(p.geonameid),
                place: p.name + ", "@ + p.country,
            },
        ),
    }
}

/// A hit by the leading segment of a name, which is less sure.
pub open spec fn by_segment(h: HitModel) -> HitModel {
    HitModel {
        confidence: Double {
            bits: if h.confidence.bits == AMBIGUOUS_CONFIDENCE {
                AMBIGUOUS_SEGMENT_CONFIDENCE
            } else {
                SEGMENT_CONFIDENCE
            },
        },
        ..h
    }
}

/// Where a name lies: a country, a place, or the place of its leading segment ("Austin, Texas").
pub open spec fn name_hit(g: GazetteerModel, raw: Seq<char>) -> Option<HitModel> {
    let norm = normalized(raw);
    if norm.len() == 0 {
        None
    } else if country_hit(g, norm) is Some {
        country_hit(g, norm)
    } else if place_hit(g, norm) is Some {
        place_hit(g, norm)
    } else {
        let segments = pieces(raw, ',');
        let head = normalized(segments[0]);
        if segments.len() > 1 && byte_len(head) >= 3 {
            match place_hit(g, head) {
                Some(h) => Some(by_segment(h)),
                None => None,
            }
        } else {
            None
        }
    }
}

fn has_name(names: &Vec<PlaceName>, id: i64, norm: &str) -> (r: bool)
    ensures
        r == goes_by(rows(names@), id, norm@),
{
    let mut i: usize = 0;
    while i < names.len()
        invariant
            i <= names@.len(),
            forall|j: int|
                0 <= j < i ==> !((#[trigger] rows(names@)[j]).geonameid == id
                    && rows(names@)[j].name_norm == norm@),
        decreases names.len() - i,
    {
        assert(rows(names@)[i as int] == names@[i as int]@);
        if names[i].geonameid == id && str_eq(names[i].name_norm.as_str(), norm) {
            return true;
        }
        i += 1;
    }
    false
}

fn find_capital(g: &Gazetteer, iso: &str, capital: Option<&str>) -> (r: Option<usize>)
    ensures
        ({
            let fits = match crate::text::opt_str(capital) {
                None => |p: PlaceModel| p.country == iso@ && p.feature_code == "PPLC"@,
                Some(c) => |p: PlaceModel| p.country == iso@ && goes_by(g@.names, p.geonameid, c),
            };
            match r {
                Some(i) => i < g.places@.len() && most_populous(g@.places, fits) == Some(
                    g.places@[i as int]@,
                ),
                None => most_populous(g@.places, fits) is None,
            }
        }),
{
    let ghost fits = match crate::text::opt_str(capital) {
        None => |p: PlaceModel| p.country == iso@ && p.feature_code == "PPLC"@,
        Some(c) => |p: PlaceModel| p.country == iso@ && goes_by(g@.names, p.geonameid, c),
    };
    let ghost all = g@.places;
    let mut best: Option<usize> = None;
    let mut i: usize = 0;
    assert(all.take(0) =~= seq![]);
    while i < g.places.len()
        invariant
            i <= g.places@.len(),
            all == rows(g.places@),
            fits == match crate::text::opt_str(capital) {
                None => |p: PlaceModel| p.country == iso@ && p.feature_code == "PPLC"@,
                Some(c) => |p: PlaceModel| p.country == iso@ && goes_by(g@.names, p.geonameid, c),
            },
            match best {
                Some(b) => b < i && most_populous(all.take(i as int), fits) == Some(
                    g.places@[b as int]@,
                ),
                None => most_populous(all.take(i as int), fits) is None,
            },
        decreases g.places.len() - i,
    {
        assert(all.take(i + 1).drop_last() =~= all.take(i as int));
        assert(all.take(i + 1).last() == g.places@[i as int]@);
        let p = &g.places[i];
        let ok = str_eq(p.country.as_str(), iso) && match capital {
            None => str_eq(p.feature_code.as_str(), "PPLC"),
            Some(c) => has_name(&g.names, p.geonameid, c),
        };
        assert(ok == fits(p@));
        if ok {
            best = match best {
                Some(b) => if p.population > g.places[b].population {
                    Some(i)
                } else {
                    Some(b)
                },
                None => Some(i),
            };
        }
        i += 1;
    }
    assert(all.take(i as int) =~= all);
    best
}

fn find_country(cs: &Vec<Country>, key: &str) -> (r: Option<usize>)
    ensures
        match r {
            Some(i) => i < cs@.len() && country_named(rows(cs@), key@) == Some(cs@[i as int]@),
            None => country_named(rows(cs@), key@) is None,
        },
{
    let ghost all = rows(cs@);
    let mut i: usize = 0;
    assert(all.skip(0) =~= all);
    while i < cs.len()
        invariant
            i <= cs@.len(),
            all == rows(cs@),
            country_named(all, key@) == country_named(all.skip(i as int), key@),
        decreases cs.len() - i,
    {
        assert(all.skip(i as int)[0] == cs@[i as int]@);
        assert(all.skip(i as int).drop_first() =~= all.skip(i + 1));
        if str_eq(cs[i].name_norm.as_str(), key) {
            return Some(i);
        }
        i += 1;
    }
    None
}

/// Where a country lies, by its normalized name.
pub fn lookup_country(g: &Gazetteer, norm: &str) -> (r: Option<Hit>)
    ensures
        opt_hit(r) == country_hit(g@, norm@),
{
    let key = match country_synonym(norm) {
        Some(k) => k,
        None => norm,
    };
    let c = match find_country(&g.countries, key) {
        Some(i) => &g.countries[i],
        None => {
            return None;
        },
    };
    let at = match find_capital(g, c.iso.as_str(), None) {
        Some(i) => i,
        None => {
            let capital = normalize(c.capital.as_str());
            match find_capital(g, c.iso.as_str(), Some(capital.as_str())) {
                Some(i) => i,
                None => {
                    return None;
                },
            }
        },
    };
    let p = &g.places[at];
    assert(capital_of(g@, c@) == Some(p@));
    let mut place = c.name.clone();
    place.append(" (capital: ");
    place.append(p.name.as_str());
    place.append(")");
    Some(
        Hit {
            lat: p.lat,
            lon: p.lon,
            confidence: Double::from_bits(COUNTRY_CONFIDENCE),
            geonameid: Some(p.geonameid),
            place,
        },
    )
}

fn find_place(g: &Gazetteer, norm: &str) -> (r: Option<usize>)
    ensures
        ({
            let best = most_populous(
                g@.places,
                |p: PlaceModel| goes_by(g@.names, p.geonameid, norm@),
            );
            match r {
                Some(i) => i < g.places@.len() && best == Some(g.places@[i as int]@),
                None => best is None,
            }
        }),
{
    let ghost fits = |p: PlaceModel| goes_by(g@.names, p.geonameid, norm@);
    let ghost all = g@.places;
    let mut best: Option<usize> = None;
    let mut i: usize = 0;
    assert(all.take(0) =~= seq![]);
    while i < g.places.len()
        invariant
            i <= g.places@.len(),
            all == rows(g.places@),
            fits == (|p: PlaceModel| goes_by(g@.names, p.geonameid, norm@)),
            match best {
                Some(b) => b < i && most_populous(all.take(i as int), fits) == Some(
                    g.places@[b as int]@,
                ),
                None => most_populous(all.take(i as int), fits) is None,
            },
        decreases g.places.len() - i,
    {
        assert(all.take(i + 1).drop_last() =~= all.take(i as int));
        assert(all.take(i + 1).last() == g.places@[i as int]@);
        let p = &g.places[i];
        if has_name(&g.names, p.geonameid, norm) {
            best = match best {
                Some(b) => if p.population > g.places[b].population {
                    Some(i)
                } else {
                    Some(b)
                },
                None => Some(i),
            };
        }
        i += 1;
    }
    assert(all.take(i as int) =~= all);
    best
}

fn ambiguous(g: &Gazetteer, norm: &str, p: &Place) -> (r: bool)
    ensures
        r == is_ambiguous(g@, norm@, p@),
{
    let mut i: usize = 0;
    while i < g.places.len()
        invariant
            i <= g.places@.len(),
            forall|j: int|
                0 <= j < i ==> !(goes_by(g@.names, (#[trigger] g@.places[j]).geonameid, norm@)
                    && !same_place(p@, g@.places[j])),
        decreases g.places.len() - i,
    {
        let q = &g.places[i];
        assert(g@.places[i as int] == q@);
        let same = p.geonameid == q.geonameid && p.lat == q.lat && p.lon == q.lon && str_eq(
            p.name.as_str(),
            q.name.as_str(),
        ) && str_eq(p.country.as_str(), q.country.as_str()) && p.population == q.population;
        if !same && has_name(&g.names, q.geonameid, norm) {
            return true;
        }
        i += 1;
    }
    false
}

/// Where a place lies, by its normalized name.
pub fn lookup_place(g: &Gazetteer, norm: &str) -> (r: Option<Hit>)
    ensures
        opt_hit(r) == place_hit(g@, norm@),
{
    let p = match find_place(g, norm) {
        Some(i) => &g.places[i],
        None => {
            return None;
        },
    };
    let mut place = p.name.clone();
    place.append(", ");
    place.append(p.country.as_str());
    let bits = if ambiguous(g, norm, p) {
        AMBIGUOUS_CONFIDENCE
    } else {
        PLACE_CONFIDENCE
    };
    Some(
        Hit {
            lat: p.lat,
            lon: p.lon,
            confidence: Double::from_bits(bits),
            geonameid: Some(p.geonameid),
            place,
        },
    )
}

/// Where a name lies.
pub fn resolve_name(g: &Gazetteer, raw: &str) -> (r: Option<Hit>)
    ensures
        opt_hit(r) == name_hit(g@, raw@),
{
    let norm = normalize(raw);
    if norm.as_str().is_empty() {
        return None;
    }
    if let Some(h) = lookup_country(g, norm.as_str()) {
        return Some(h);
    }
    if let Some(h) = lookup_place(g, norm.as_str()) {
        return Some(h);
    }
    let segments = split_at_char(&chars_of(raw), ',');
    let ghost sv = views(segments@);
    assert(sv.len() == segments@.len());
    assert(sv[0] == segments@[0]@);
    if segments.len() > 1 {
        let head = normalize(segments[0].as_str());
        if head.as_str().as_bytes().len() >= 3 {
            if let Some(h) = lookup_place(g, head.as_str()) {
                let bits = if h.confidence.bits == AMBIGUOUS_CONFIDENCE {
                    AMBIGUOUS_SEGMENT_CONFIDENCE
                } else {
                    SEGMENT_CONFIDENCE
                };
                return Some(
                    Hit {
                        lat: h.lat,
                        lon: h.lon,
                        confidence: Double::from_bits(bits),
                        geonameid: h.geonameid,
                        place: h.place,
                    },
                );
            }
        }
    }
    None
}

// ---------------------------------------------------------------------------------------------
// Geocoding

/// How geocoding went.
#[derive(Clone, Copy, Debug, PartialEq, Eq, Structural)]
pub struct GeocodeStats {
    pub considered: usize,
    pub geocoded: usize,
}

impl Default for GeocodeStats {
    fn default() -> (r: Self)
        ensures
            r == (GeocodeStats { considered: 0, geocoded: 0 }),
    {
        GeocodeStats { considered: 0, geocoded: 0 }
    }
}

/// The surest of the hits of the names, the first of equals.
pub open spec fn surest(g: GazetteerModel, names: Seq<Seq<char>>) -> Option<HitModel>
    decreases names.len(),
{
    if names.len() == 0 {
        None
    } else {
        let best = surest(g, names.drop_last());
        match (name_hit(g, names.last()), best) {
            (None, _) => best,
            (Some(h), None) => Some(h),
            (Some(h), Some(b)) => if h.confidence.rank() > b.confidence.rank() {
                Some(h)
            } else {
                Some(b)
            },
        }
    }
}

/// The entity has coordinates.
pub open spec fn is_placed(geo: Seq<GeoModel>, id: Seq<char>) -> bool {
    exists|i: int| 0 <= i < geo.len() && (#[trigger] geo[i]).entity_id == id
}

/// The entity is to be geocoded: a live location, which has no coordinates unless all are asked
/// for.
pub open spec fn wants_place(geo: Seq<GeoModel>, e: EntityModel, all: bool) -> bool {
    e.entity_type == "location"@ && e.is_live && (all || !is_placed(geo, e.id))
}

/// The row of a hit.
pub open spec fn geo_row(id: Seq<char>, h: HitModel, now: Seq<char>) -> GeoModel {
    GeoModel {
        entity_id: id,
        lat: h.lat,
        lon: h.lon,
        geo_confidence: h.confidence,
        geonameid: h.geonameid,
        place_name: Some(h.place),
        geocoded_at: now,
    }
}

/// The coordinates with those of one more entity; they replace the ones it had.
pub open spec fn with_place(geo: Seq<GeoModel>, row: GeoModel) -> Seq<GeoModel> {
    if is_placed(geo, row.entity_id) {
        Seq::new(
            geo.len(),
            |i: int|
                if geo[i].entity_id == row.entity_id {
                    row
                } else {
                    geo[i]
                },
        )
    } else {
        geo.push(row)
    }
}

/// The coordinates and the counts after the entities were geocoded, one after the other.
pub open spec fn geocoded(
    before: Seq<GeoModel>,
    es: Seq<EntityModel>,
    g: GazetteerModel,
    all: bool,
    now: Seq<char>,
) -> (Seq<GeoModel>, GeocodeStats)
    decreases es.len(),
{
    if es.len() == 0 {
        (before, GeocodeStats { considered: 0, geocoded: 0 })
    } else {
        let (geo, stats) = geocoded(before, es.drop_last(), g, all, now);
        let e = es.last();
        if wants_place(before, e, all) {
            let s = GeocodeStats { considered: one_more(stats.considered), ..stats };
            match surest(g, all_names(e)) {
                Some(h) => (
                    with_place(geo, geo_row(e.id, h, now)),
                    GeocodeStats { geocoded: one_more(s.geocoded), ..s },
                ),
                None => (geo, s),
            }
        } else {
            (geo, stats)
        }
    }
}

fn best_hit(g: &Gazetteer, names: &Vec<String>) -> (r: Option<Hit>)
    ensures
        opt_hit(r) == surest(g@, views(names@)),
{
    let ghost all = views(names@);
    let mut best: Option<Hit> = None;
    let mut i: usize = 0;
    assert(all.take(0) =~= seq![]);
    while i < names.len()
        invariant
            i <= names@.len(),
            all == views(names@),
            opt_hit(best) == surest(g@, all.take(i as int)),
        decreases names.len() - i,
    {
        assert(all.take(i + 1).drop_last() =~= all.take(i as int));
        assert(all.take(i + 1).last() == names@[i as int]@);
        if let Some(h) = resolve_name(g, names[i].as_str()) {
            let better = match &best {
                Some(b) => h.confidence.above(b.confidence),
                None => true,
            };
            if better {
                best = Some(h);
            }
        }
        i += 1;
    }
    assert(all.take(i as int) =~= all);
    best
}

fn placed(geo: &Vec<GeoRow>, n: usize, id: &str) -> (r: bool)
    requires
        n <= geo@.len(),
    ensures
        r == is_placed(rows(geo@).take(n as int), id@),
{
    let ghost all = rows(geo@).take(n as int);
    let mut i: usize = 0;
    while i < n
        invariant
            i <= n <= geo@.len(),
            all == rows(geo@).take(n as int),
            forall|j: int| 0 <= j < i ==> (#[trigger] all[j]).entity_id != id@,
        decreases n - i,
    {
        assert(all[i as int] == geo@[i as int]@);
        if str_eq(geo[i].entity_id.as_str(), id) {
            return true;
        }
        i += 1;
    }
    false
}

fn dup_row(row: &GeoRow) -> (r: GeoRow)
    ensures
        r@ == row@,
{
    GeoRow {
        entity_id: row.entity_id.clone(),
        lat: row.lat,
        lon: row.lon,
        geo_confidence: row.geo_confidence,
        geonameid: row.geonameid,
        place_name: opt_copy(&row.place_name),
        geocoded_at: row.geocoded_at.clone(),
    }
}

fn put_place(geo: &mut Vec<GeoRow>, row: GeoRow)
    ensures
        rows(final(geo)@) == with_place(rows(old(geo)@), row@),
{
    let ghost before = rows(geo@);
    let ghost rv = row@;
    assert(before.take(before.len() as int) =~= before);
    assert(before.len() == geo@.len());
    if placed(geo, geo.len(), row.entity_id.as_str()) {
        let ghost goal = with_place(before, rv);
        let mut i: usize = 0;
        while i < geo.len()
            invariant
                i <= geo@.len(),
                geo@.len() == before.len(),
                rv == row@,
                is_placed(before, rv.entity_id),
                goal == with_place(before, rv),
                forall|j: int| 0 <= j < i ==> (#[trigger] rows(geo@)[j]) == goal[j],
                forall|j: int| i <= j < before.len() ==> (#[trigger] rows(geo@)[j]) == before[j],
            decreases geo.len() - i,
        {
            let ghost cur = rows(geo@);
            assert(cur[i as int] == before[i as int]);
            if str_eq(geo[i].entity_id.as_str(), row.entity_id.as_str()) {
                geo.set(i, dup_row(&row));
            }
            assert forall|j: int| 0 <= j < cur.len() && j != i implies (#[trigger] rows(geo@)[j])
                == cur[j] by {}
            assert(rows(geo@)[i as int] == goal[i as int]);
            i += 1;
        }
        assert(rows(geo@) =~= goal);
    } else {
        geo.push(row);
        assert(rows(geo@) =~= before.push(rv));
    }
}

/// Geocodes live location-type entities at the time `now`: those without coordinates, or all.
pub fn geocode_entities_at(world: &mut World, g: &Gazetteer, all: bool, now: &str) -> (r:
    GeocodeStats)
    ensures
        ({
            let (geo, stats) = geocoded(
                old(world)@.geo,
                old(world)@.entities,
                g@,
                all,
                now@,
            );
            &&& final(world)@ == (WorldModel { geo, ..old(world)@ })
            &&& r == stats
        }),
{
    let ghost w = world@;
    let ghost es = w.entities;
    let mut wanted: Vec<bool> = Vec::new();
    let mut k: usize = 0;
    assert(w.geo.take(w.geo.len() as int) =~= w.geo);
    assert(w.geo.len() == world.geo@.len());
    while k < world.entities.len()
        invariant
            k <= world.entities@.len(),
            w == world@,
            es == w.entities,
            w.geo.take(w.geo.len() as int) == w.geo,
            w.geo.len() == world.geo@.len(),
            wanted@.len() == k,
            forall|j: int| 0 <= j < k ==> #[trigger] wanted@[j] == wants_place(w.geo, es[j], all),
        decreases world.entities.len() - k,
    {
        let e = &world.entities[k];
        assert(es[k as int] == e@);
        let n: usize = world.geo.len();
        wanted.push(
            str_eq(e.entity_type.as_str(), "location") && e.is_live && (all || !placed(
                &world.geo,
                n,
                e.id.as_str(),
            )),
        );
        k += 1;
    }
    let mut stats = GeocodeStats::default();
    let mut i: usize = 0;
    assert(es.take(0) =~= seq![]);
    while i < world.entities.len()
        invariant
            i <= world.entities@.len(),
            es == rows(world.entities@),
            wanted@.len() == es.len(),
            forall|j: int|
                0 <= j < es.len() ==> #[trigger] wanted@[j] == wants_place(w.geo, es[j], all),
            world@ == (WorldModel { geo: rows(world.geo@), ..w }),
            (rows(world.geo@), stats) == geocoded(w.geo, es.take(i as int), g@, all, now@),
        decreases world.entities.len() - i,
    {
        assert(es.take(i + 1).drop_last() =~= es.take(i as int));
        assert(es.take(i + 1).last() == world.entities@[i as int]@);
        if wanted[i] {
            stats.considered = count_one(stats.considered);
            let id = world.entities[i].id.clone();
            if let Some(h) = best_hit(g, &names_of(&world.entities[i])) {
                let row = GeoRow {
                    entity_id: id,
                    lat: h.lat,
                    lon: h.lon,
                    geo_confidence: h.confidence,
                    geonameid: h.geonameid,
                    place_name: Some(h.place),
                    geocoded_at: now.to_owned(),
                };
                assert(row@ =~= geo_row(es[i as int].id, h@, now@));
                put_place(&mut world.geo, row);
                stats.geocoded = count_one(stats.geocoded);
            }
        }
        i += 1;
    }
    assert(es.take(i as int) =~= es);
    stats
}

/// Geocodes live location-type entities now: those without coordinates, or all.
pub fn geocode_entities(world: &mut World, g: &Gazetteer, all: bool) -> (r: GeocodeStats)
    ensures
        exists|now: Seq<char>|
            is_instant(now) && (WorldModel {
                geo: (#[trigger] geocoded(
                    old(world)@.geo,
                    old(world)@.entities,
                    g@,
                    all,
                    now,
                )).0,
                ..old(world)@
            }) == final(world)@ && r == geocoded(
                old(world)@.geo,
                old(world)@.entities,
                g@,
                all,
                now,
            ).1,
{
    let at = now();
    let ghost atv = at@;
    let r = geocode_entities_at(world, g, all, at.as_str());
    assert(r == geocoded(old(world)@.geo, old(world)@.entities, g@, all, atv).1);
    r
}

/// Unless all are asked for, coordinates that an entity has stay as they are.
pub proof fn law_coordinates_stay(
    before: Seq<GeoModel>,
    es: Seq<EntityModel>,
    g: GazetteerModel,
    now: Seq<char>,
    i: int,
)
    requires
        0 <= i < before.len(),
    ensures
        geocoded(before, es, g, false, now).0.len() >= before.len(),
        geocoded(before, es, g, false, now).0[i] == before[i],
    decreases es.len(),
{
    if es.len() > 0 {
        law_coordinates_stay(before, es.drop_last(), g, now, i);
        let e = es.last();
        if wants_place(before, e, false) {
            assert(before[i].entity_id != e.id);
        }
    }
}

/// What is shown of a geocoded entity.
#[derive(Debug)]
pub struct Feature {
    pub id: String,
    pub name: String,
    pub entity_type: String,
    pub confidence: Double,
    pub lat: Double,
    pub lon: Double,
    pub geo_confidence: Double,
    pub place: Option<String>,
}

#[verifier::ext_equal]
pub struct FeatureModel {
    pub id: Seq<char>,
    pub name: Seq<char>,
    pub entity_type: Seq<char>,
    pub confidence: Double,
    pub lat: Double,
    pub lon: Double,
    pub geo_confidence: Double,
    pub place: Option<Seq<char>>,
}

impl View for Feature {
    type V = FeatureModel;

    open spec fn view(&self) -> FeatureModel {
        FeatureModel {
            id: self.id@,
            name: self.name@,
            entity_type: self.entity_type@,
            confidence: self.confidence,
            lat: self.lat,
            lon: self.lon,
            geo_confidence: self.geo_confidence,
            place: opt_view(self.place),
        }
    }
}

/// What is shown of the coordinates, for entities that are stored and live.
pub open spec fn shown_features(geo: Seq<GeoModel>, es: Seq<EntityModel>) -> Seq<FeatureModel>
    decreases geo.len(),
{
    if geo.len() == 0 {
        seq![]
    } else {
        let rest = shown_features(geo.drop_last(), es);
        let row = geo.last();
        match entity_of(es, row.entity_id) {
            Some(e) => if e.is_live {
                rest.push(
                    FeatureModel {
                        id: e.id,
                        name: e.canonical_name,
                        entity_type: e.entity_type,
                        confidence: e.confidence,
                        lat: row.lat,
                        lon: row.lon,
                        geo_confidence: row.geo_confidence,
                        place: row.place_name,
                    },
                )
            } else {
                rest
            },
            None => rest,
        }
    }
}

/// The geocoded live entities.
pub fn features(world: &World) -> (r: Vec<Feature>)
    ensures
        rows(r@) == shown_features(world@.geo, world@.entities),
{
    let ghost all = world@.geo;
    let ghost es = world@.entities;
    let mut out: Vec<Feature> = Vec::new();
    let mut i: usize = 0;
    assert(all.take(0) =~= seq![]);
    assert(rows(out@) =~= seq![]);
    while i < world.geo.len()
        invariant
            i <= world.geo@.len(),
            all == rows(world.geo@),
            es == rows(world.entities@),
            rows(out@) == shown_features(all.take(i as int), es),
        decreases world.geo.len() - i,
    {
        assert(all.take(i + 1).drop_last() =~= all.take(i as int));
        assert(all.take(i + 1).last() == world.geo@[i as int]@);
        let row = &world.geo[i];
        let ghost done = rows(out@);
        if let Some(at) = find_entity(&world.entities, row.entity_id.as_str()) {
            let e = &world.entities[at];
            if e.is_live {
                let f = Feature {
                    id: e.id.clone(),
                    name: e.canonical_name.clone(),
                    entity_type: e.entity_type.clone(),
                    confidence: e.confidence,
                    lat: row.lat,
                    lon: row.lon,
                    geo_confidence: row.geo_confidence,
                    place: opt_copy(&row.place_name),
                };
                let ghost fv = f@;
                out.push(f);
                assert(rows(out@) =~= done.push(fv));
            }
        }
        i += 1;
    }
    assert(all.take(i as int) =~= all);
    out
}

/// How many places, countries and geocoded entities there are.
pub fn status(world: &World, g: &Gazetteer) -> (r: (usize, usize, usize))
    ensures
        r.0 == g@.places.len(),
        r.1 == g@.countries.len(),
        r.2 == world@.geo.len(),
{
    (g.places.len(), g.countries.len(), world.geo.len())
}

/// Where an entity lies.
pub open spec fn place_of_entity(geo: Seq<GeoModel>, id: Seq<char>) -> Option<GeoModel>
    decreases geo.len(),
{
    if geo.len() == 0 {
        None
    } else if geo[0].entity_id == id {
        Some(geo[0])
    } else {
        place_of_entity(geo.drop_first(), id)
    }
}

pub fn find_geo(geo: &Vec<GeoRow>, id: &str) -> (r: Option<usize>)
    ensures
        match r {
            Some(i) => i < geo@.len() && place_of_entity(rows(geo@), id@) == Some(
                geo@[i as int]@,
            ),
            None => place_of_entity(rows(geo@), id@) is None,
        },
{
    let ghost all = rows(geo@);
    let mut i: usize = 0;
    assert(all.skip(0) =~= all);
    while i < geo.len()
        invariant
            i <= geo@.len(),
            all == rows(geo@),
            place_of_entity(all, id@) == place_of_entity(all.skip(i as int), id@),
        decreases geo.len() - i,
    {
        assert(all.skip(i as int)[0] == geo@[i as int]@);
        assert(all.skip(i as int).drop_first() =~= all.skip(i + 1));
        if str_eq(geo[i].entity_id.as_str(), id) {
            return Some(i);
        }
        i += 1;
    }
    None
}

} // verus!
