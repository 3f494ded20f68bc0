//! A target profile assembled from the graph: identity, a dated timeline of typed relations, the
//! co-mention network, sources, and (optionally) a grounded assessment written by a model from
//! that same evidence and nothing else.
//!
//! Scope by construction: everything here traces to an ingested public source. The assessment
//! prompt forbids outside knowledge, so that a dossier on a person is what the public record says
//! about their professional conduct, not a background check.

use vstd::prelude::*;
use vstd::string::*;

use crate::context::{
    citation, cite, cited_ids, context_text, format_context, history, history_of, list_sources,
    name_among, name_in, numbered, scoped, scoped_slice, sources_text, GraphSlice, RefModel,
    SliceModel, SourceRef,
};
use crate::double::fixed;
use crate::geo::{find_geo, place_of_entity};
use crate::models::{listed, rows, EdgeModel, EntityModel, WmEdge, WmEntity};
use crate::order::{
    ascending, ints, opt_views, positions, rank_ascending, rank_descending, ranking,
};
use crate::table::{arrange, arranged, marked_places, places};
use crate::text::{
    decimal, decimal_of, flat, flatten, opt_copy, opt_str, opt_view, short_form, shorten, str_eq,
    trim, trimmed, views,
};
use crate::why::{find_entity, meant, names_text, truth, write_names, write_truth, NoEntity};
use crate::world::{entity_of, GeoModel, GeoRow, World, WorldModel};

verus! {

/// How many co-mentions are shown.
pub const NETWORK_LIMIT: usize = 15;

/// What a dossier is to cover.
#[derive(Debug, Clone, Copy)]
pub struct DossierOptions<'a> {
    pub as_of: Option<&'a str>,
    /// Cite only sources of this license class (client tokens).
    pub license_filter: Option<&'a str>,
}

impl<'a> Default for DossierOptions<'a> {
    fn default() -> (r: Self)
        ensures
            r.as_of is None,
            r.license_filter is None,
    {
        DossierOptions { as_of: None, license_filter: None }
    }
}

// ---------------------------------------------------------------------------------------------
// Timeline

/// The positions of the typed relations, in the order of their valid time.
pub open spec fn timeline(edges: Seq<EdgeModel>) -> Seq<int> {
    let at = places(edges.len() as int, |i: int| edges[i].edge_type != "mentioned_with"@);
    arranged(at, ascending(Seq::new(at.len(), |k: int| edges[at[k]].valid_at)))
}

/// When a relation held; a superseded one is shown as closed.
pub open spec fn period(e: EdgeModel) -> Seq<char> {
    match (e.valid_at, e.invalid_at) {
        (Some(v), None) => short_form(v, 10) + " –"@,
        (Some(v), Some(i)) => short_form(v, 10) + " – "@ + short_form(i, 10) + " (superseded)"@,
        (None, Some(i)) => "– "@ + short_form(i, 10),
        (None, None) => "undated"@,
    }
}

/// The line on a typed relation, seen from an entity.
pub open spec fn timeline_line(
    e: EdgeModel,
    es: Seq<EntityModel>,
    refs: Seq<RefModel>,
    id: Seq<char>,
) -> Seq<char> {
    "- **"@ + period(e) + "** "@ + name_in(es, e.from_id) + " "@ + (if e.from_id == id {
        "→"@
    } else {
        "←"@
    }) + " `"@ + e.edge_type + "` "@ + name_in(es, e.to_id) + " "@ + citation(
        listed(e.source_item_ids),
        refs,
    ) + "\n"@
}

/// The timeline of an entity.
pub open spec fn timeline_text(s: SliceModel, refs: Seq<RefModel>, id: Seq<char>) -> Seq<char> {
    let at = timeline(s.edges);
    "## Timeline ("@ + decimal(at.len()) + " typed relations)\n\n"@ + (if at.len() == 0 {
        "_no typed relations yet — run Tier 2 enrichment on this entity's sources_\n"@
    } else {
        seq![]
    }) + flat(Seq::new(at.len(), |k: int| timeline_line(s.edges[at[k]], s.entities, refs, id)))
}

fn find_timeline(edges: &Vec<WmEdge>) -> (r: Vec<usize>)
    ensures
        positions(r@) == timeline(rows(edges@)),
        forall|k: int| 0 <= k < r@.len() ==> #[trigger] r@[k] < edges@.len(),
{
    let ghost all = rows(edges@);
    let ghost fits = |i: int| all[i].edge_type != "mentioned_with"@;
    let mut marks: Vec<bool> = Vec::new();
    let mut i: usize = 0;
    while i < edges.len()
        invariant
            i <= edges@.len(),
            all == rows(edges@),
            fits == (|i: int| all[i].edge_type != "mentioned_with"@),
            marks@.len() == i,
            forall|j: int| 0 <= j < i ==> #[trigger] marks@[j] == fits(j),
        decreases edges.len() - i,
    {
        assert(all[i as int] == edges@[i as int]@);
        marks.push(!str_eq(edges[i].edge_type.as_str(), "mentioned_with"));
        i += 1;
    }
    let at = marked_places(&marks, Ghost(fits));
    let ghost av = positions(at@);
    let mut keys: Vec<Option<String>> = Vec::new();
    let mut k: usize = 0;
    while k < at.len()
        invariant
            k <= at@.len(),
            all == rows(edges@),
            av == positions(at@),
            forall|j: int| 0 <= j < at@.len() ==> #[trigger] at@[j] < edges@.len(),
            keys@.len() == k,
            forall|j: int| 0 <= j < k ==> opt_view(#[trigger] keys@[j]) == all[av[j]].valid_at,
        decreases at.len() - k,
    {
        assert(av[k as int] == at@[k as int]);
        keys.push(opt_copy(&edges[at[k]].valid_at));
        k += 1;
    }
    assert(opt_views(keys@) =~= Seq::new(av.len(), |k: int| all[av[k]].valid_at));
    let order = rank_ascending(&keys);
    let r = arrange(&at, &order);
    proof {
        assert forall|k: int| 0 <= k < r@.len() implies (#[trigger] r@[k]) < edges@.len() by {
            assert(at@.contains(r@[k]));
        }
    }
    r
}

fn write_period(e: &WmEdge) -> (r: String)
    ensures
        r@ == period(e@),
{
    match (&e.valid_at, &e.invalid_at) {
        (Some(v), None) => {
            let mut m = shorten(v.as_str(), 10);
            m.append(" –");
            m
        },
        (Some(v), Some(i)) => {
            let mut m = shorten(v.as_str(), 10);
            m.append(" – ");
            m.append(shorten(i.as_str(), 10).as_str());
            m.append(" (superseded)");
            m
        },
        (None, Some(i)) => {
            let mut m = "– ".to_owned();
            m.append(shorten(i.as_str(), 10).as_str());
            m
        },
        (None, None) => "undated".to_owned(),
    }
}

fn write_typed(e: &WmEdge, es: &Vec<WmEntity>, refs: &Vec<SourceRef>, id: &str) -> (r: String)
    ensures
        r@ == timeline_line(e@, rows(es@), rows(refs@), id@),
{
    let mut m = "- **".to_owned();
    m.append(write_period(e).as_str());
    m.append("** ");
    m.append(name_among(es, e.from_id.as_str()).as_str());
    m.append(" ");
    if str_eq(e.from_id.as_str(), id) {
        m.append("→");
    } else {
        m.append("←");
    }
    m.append(" `");
    m.append(e.edge_type.as_str());
    m.append("` ");
    m.append(name_among(es, e.to_id.as_str()).as_str());
    m.append(" ");
    m.append(cite(e, refs).as_str());
    m.append("\n");
    m
}

fn write_timeline(s: &GraphSlice, refs: &Vec<SourceRef>, id: &str) -> (r: String)
    ensures
        r@ == timeline_text(s@, rows(refs@), id@),
{
    let at = find_timeline(&s.edges);
    let ghost sv = s@;
    let ghost rv = rows(refs@);
    let ghost av = positions(at@);
    let ghost goal = Seq::new(
        av.len(),
        |k: int| timeline_line(sv.edges[av[k]], sv.entities, rv, id@),
    );
    let mut out: Vec<String> = Vec::new();
    let mut k: usize = 0;
    while k < at.len()
        invariant
            k <= at@.len(),
            sv == s@,
            rv == rows(refs@),
            av == positions(at@),
            forall|j: int| 0 <= j < at@.len() ==> #[trigger] at@[j] < s.edges@.len(),
            goal == Seq::new(
                av.len(),
                |k: int| timeline_line(sv.edges[av[k]], sv.entities, rv, id@),
            ),
            out@.len() == k,
            forall|j: int| 0 <= j < k ==> (#[trigger] out@[j])@ == goal[j],
        decreases at.len() - k,
    {
        assert(av[k as int] == at@[k as int]);
        assert(sv.edges[av[k as int]] == s.edges@[at@[k as int] as int]@);
        out.push(write_typed(&s.edges[at[k]], &s.entities, refs, id));
        k += 1;
    }
    assert(views(out@) =~= goal);
    assert(av.len() == at@.len());
    let mut m = "## Timeline (".to_owned();
    m.append(decimal_of(at.len() as u64).as_str());
    m.append(" typed relations)\n\n");
    let none = if at.len() == 0 {
        "_no typed relations yet — run Tier 2 enrichment on this entity's sources_\n".to_owned()
    } else {
        String::new()
    };
    m.append(none.as_str());
    m.append(flatten(&out).as_str());
    m
}

// ---------------------------------------------------------------------------------------------
// Network

/// The positions of the co-mentions, heaviest first.
pub open spec fn network(edges: Seq<EdgeModel>) -> Seq<int> {
    let at = places(edges.len() as int, |i: int| edges[i].edge_type == "mentioned_with"@);
    arranged(at, ranking(Seq::new(at.len(), |k: int| edges[at[k]].weight as int)))
}

/// The type of an entity of a list.
pub open spec fn type_in(es: Seq<EntityModel>, id: Seq<char>) -> Seq<char> {
    match entity_of(es, id) {
        Some(e) => e.entity_type,
        None => "?"@,
    }
}

/// The line on a co-mention, seen from an entity.
pub open spec fn network_line(
    e: EdgeModel,
    es: Seq<EntityModel>,
    refs: Seq<RefModel>,
    id: Seq<char>,
) -> Seq<char> {
    let other = if e.from_id == id {
        e.to_id
    } else {
        e.from_id
    };
    "- "@ + name_in(es, other) + " ["@ + type_in(es, other) + "] · "@ + decimal(e.weight as nat)
        + " shared source(s) "@ + citation(listed(e.source_item_ids), refs) + "\n"@
}

/// How many of so many are shown.
pub open spec fn shown(n: nat) -> nat {
    if n < NETWORK_LIMIT {
        n
    } else {
        NETWORK_LIMIT as nat
    }
}

/// Who an entity is mentioned with, heaviest first.
pub open spec fn network_text(s: SliceModel, refs: Seq<RefModel>, id: Seq<char>) -> Seq<char> {
    let at = network(s.edges);
    "\n## Network (top "@ + decimal(shown(at.len())) + " of "@ + decimal(at.len())
        + " co-mentions)\n\n"@ + flat(
        Seq::new(
            shown(at.len()),
            |k: int| network_line(s.edges[at[k]], s.entities, refs, id),
        ),
    )
}

fn find_network(edges: &Vec<WmEdge>) -> (r: Vec<usize>)
    ensures
        positions(r@) == network(rows(edges@)),
        forall|k: int| 0 <= k < r@.len() ==> #[trigger] r@[k] < edges@.len(),
{
    let ghost all = rows(edges@);
    let ghost fits = |i: int| all[i].edge_type == "mentioned_with"@;
    let mut marks: Vec<bool> = Vec::new();
    let mut i: usize = 0;
    while i < edges.len()
        invariant
            i <= edges@.len(),
            all == rows(edges@),
            fits == (|i: int| all[i].edge_type == "mentioned_with"@),
            marks@.len() == i,
            forall|j: int| 0 <= j < i ==> #[trigger] marks@[j] == fits(j),
        decreases edges.len() - i,
    {
        assert(all[i as int] == edges@[i as int]@);
        marks.push(str_eq(edges[i].edge_type.as_str(), "mentioned_with"));
        i += 1;
    }
    let at = marked_places(&marks, Ghost(fits));
    let ghost av = positions(at@);
    let mut keys: Vec<i128> = Vec::new();
    let mut k: usize = 0;
    while k < at.len()
        invariant
            k <= at@.len(),
            all == rows(edges@),
            av == positions(at@),
            forall|j: int| 0 <= j < at@.len() ==> #[trigger] at@[j] < edges@.len(),
            keys@.len() == k,
            forall|j: int| 0 <= j < k ==> #[trigger] keys@[j] == all[av[j]].weight as int,
        decreases at.len() - k,
    {
        assert(av[k as int] == at@[k as int]);
        keys.push(edges[at[k]].weight as i128);
        k += 1;
    }
    assert(ints(keys@) =~= Seq::new(av.len(), |k: int| all[av[k]].weight as int));
    let order = rank_descending(&keys);
    let r = arrange(&at, &order);
    proof {
        assert forall|k: int| 0 <= k < r@.len() implies (#[trigger] r@[k]) < edges@.len() by {
            assert(at@.contains(r@[k]));
        }
    }
    r
}

fn write_mentioned(e: &WmEdge, es: &Vec<WmEntity>, refs: &Vec<SourceRef>, id: &str) -> (r: String)
    ensures
        r@ == network_line(e@, rows(es@), rows(refs@), id@),
{
    let other = if str_eq(e.from_id.as_str(), id) {
        e.to_id.as_str()
    } else {
        e.from_id.as_str()
    };
    let kind = match crate::world::find_entity(es, other) {
        Some(i) => es[i].entity_type.clone(),
        None => "?".to_owned(),
    };
    let mut m = "- ".to_owned();
    m.append(name_among(es, other).as_str());
    m.append(" [");
    m.append(kind.as_str());
    m.append("] · ");
    m.append(decimal_of(e.weight).as_str());
    m.append(" shared source(s) ");
    m.append(cite(e, refs).as_str());
    m.append("\n");
    m
}

fn write_network(s: &GraphSlice, refs: &Vec<SourceRef>, id: &str) -> (r: String)
    ensures
        r@ == network_text(s@, rows(refs@), id@),
{
    let at = find_network(&s.edges);
    let ghost sv = s@;
    let ghost rv = rows(refs@);
    let ghost av = positions(at@);
    assert(av.len() == at@.len());
    let n: usize = if at.len() < NETWORK_LIMIT {
        at.len()
    } else {
        NETWORK_LIMIT
    };
    let ghost goal = Seq::new(
        n as nat,
        |k: int| network_line(sv.edges[av[k]], sv.entities, rv, id@),
    );
    let mut out: Vec<String> = Vec::new();
    let mut k: usize = 0;
    while k < n
        invariant
            k <= n <= at@.len(),
            sv == s@,
            rv == rows(refs@),
            av == positions(at@),
            forall|j: int| 0 <= j < at@.len() ==> #[trigger] at@[j] < s.edges@.len(),
            goal == Seq::new(
                n as nat,
                |k: int| network_line(sv.edges[av[k]], sv.entities, rv, id@),
            ),
            out@.len() == k,
            forall|j: int| 0 <= j < k ==> (#[trigger] out@[j])@ == goal[j],
        decreases n - k,
    {
        assert(av[k as int] == at@[k as int]);
        assert(sv.edges[av[k as int]] == s.edges@[at@[k as int] as int]@);
        out.push(write_mentioned(&s.edges[at[k]], &s.entities, refs, id));
        k += 1;
    }
    assert(views(out@) =~= goal);
    let mut m = "\n## Network (top ".to_owned();
    m.append(decimal_of(n as u64).as_str());
    m.append(" of ");
    m.append(decimal_of(at.len() as u64).as_str());
    m.append(" co-mentions)\n\n");
    m.append(flatten(&out).as_str());
    m
}

// ---------------------------------------------------------------------------------------------
// The dossier

/// What the model is told.
pub const ASSESSMENT_PROMPT: &'static str = "You are an intelligence analyst writing the ASSESSMENT section of a dossier on the SUBJECT, from a resolved entity graph. Use ONLY the provided RELATIONS, ENTITIES and SOURCES; cite sources by bracketed number after each claim. Cover: what the subject is, what it has done recently (dated), who it is connected to and how, and what is unclear or contested in the evidence. Do not speculate, do not use outside knowledge, do not characterize private life. 150–300 words.";

/// How long an assessment may be, in tokens.
pub const ASSESSMENT_TOKENS: u64 = 700;

/// Where an entity lies, if it was geocoded.
pub open spec fn location_text(g: Option<GeoModel>) -> Seq<char> {
    match g {
        Some(row) => " · **Location** "@ + fixed(row.lat, 3) + ", "@ + fixed(row.lon, 3) + (
        match row.place_name {
            Some(p) => " ("@ + p + ")"@,
            None => seq![],
        }),
        None => seq![],
    }
}

/// Who the dossier is on.
pub open spec fn identity_text(
    e: EntityModel,
    g: Option<GeoModel>,
    as_of: Option<Seq<char>>,
) -> Seq<char> {
    "# Dossier: "@ + e.canonical_name + "\n\n**Type** "@ + e.entity_type + " · **Aliases** "@
        + names_text(listed(e.aliases)) + " · **Confidence** "@ + fixed(e.confidence, 2)
        + " · **Live** "@ + truth(e.is_live) + " · **First seen** "@ + short_form(e.first_seen, 10)
        + " · **Last seen** "@ + short_form(e.last_seen, 10) + location_text(g) + (match as_of {
        Some(t) => " · **As of** "@ + t,
        None => seq![],
    }) + "\n\n"@
}

/// What the model is to assess, where there is anything.
pub open spec fn assessment_prompt(
    e: EntityModel,
    s: SliceModel,
    refs: Seq<RefModel>,
    as_of: Option<Seq<char>>,
) -> Option<Seq<char>> {
    if s.edges.len() == 0 {
        None
    } else {
        Some(
            "SUBJECT: "@ + e.canonical_name + "\n"@ + (match as_of {
                Some(t) => "The graph is shown AS OF "@ + t + "; treat that as the present.\n"@,
                None => seq![],
            }) + "CONTEXT\n"@ + context_text(s, refs) + "\nSOURCES\n"@ + sources_text(refs),
        )
    }
}

/// The end of a dossier: its sources and its scope.
pub open spec fn closing_text(
    e: EntityModel,
    s: SliceModel,
    refs: Seq<RefModel>,
    license: Option<Seq<char>>,
) -> Seq<char> {
    "\n## Sources ("@ + decimal(refs.len()) + ")\n\n"@ + sources_text(refs) + "\n---\n_"@ + decimal(
        s.entities.len(),
    ) + " entities · "@ + decimal(s.edges.len()) + " relations in scope"@ + (match license {
        Some(c) => " · citing "@ + c + " sources only"@,
        None => seq![],
    }) + " · public sources only; professional conduct only. `enargeia why \""@ + e.canonical_name
        + "\"` for the full provenance trace._\n"@
}

/// A dossier before its assessment is written.
#[derive(Debug)]
pub struct Draft {
    /// Identity, timeline and network.
    pub body: String,
    /// What the model is to assess, where there is anything.
    pub prompt: Option<String>,
    /// Sources and scope.
    pub closing: String,
}

#[verifier::ext_equal]
pub struct DraftModel {
    pub body: Seq<char>,
    pub prompt: Option<Seq<char>>,
    pub closing: Seq<char>,
}

impl View for Draft {
    type V = DraftModel;

    open spec fn view(&self) -> DraftModel {
        DraftModel { body: self.body@, prompt: opt_view(self.prompt), closing: self.closing@ }
    }
}

/// The draft of an entity's dossier. The text and the prompt come from exactly the same slice.
pub open spec fn draft_of(
    w: WorldModel,
    e: EntityModel,
    as_of: Option<Seq<char>>,
    license: Option<Seq<char>>,
) -> DraftModel {
    let s = scoped(w, seq![e.id], 1, history(as_of), license);
    let refs = numbered(cited_ids(s.edges), w.source_items);
    DraftModel {
        body: identity_text(e, place_of_entity(w.geo, e.id), as_of) + timeline_text(s, refs, e.id)
            + network_text(s, refs, e.id),
        prompt: assessment_prompt(e, s, refs, as_of),
        closing: closing_text(e, s, refs, license),
    }
}

fn write_location(g: Option<&GeoRow>) -> (r: String)
    ensures
        r@ == location_text(
            match g {
                Some(row) => Some(row@),
                None => None,
            },
        ),
{
    match g {
        Some(row) => {
            let mut m = " · **Location** ".to_owned();
            m.append(row.lat.to_fixed(3).as_str());
            m.append(", ");
            m.append(row.lon.to_fixed(3).as_str());
            let mut place = String::new();
            if let Some(p) = &row.place_name {
                place = " (".to_owned();
                place.append(p.as_str());
                place.append(")");
            }
            m.append(place.as_str());
            m
        },
        None => String::new(),
    }
}

fn write_identity(world: &World, e: &WmEntity, as_of: Option<&str>) -> (r: String)
    ensures
        r@ == identity_text(e@, place_of_entity(world@.geo, e@.id), opt_str(as_of)),
{
    let location = match find_geo(&world.geo, e.id.as_str()) {
        Some(i) => write_location(Some(&world.geo[i])),
        None => write_location(None),
    };
    let mut m = "# Dossier: ".to_owned();
    m.append(e.canonical_name.as_str());
    m.append("\n\n**Type** ");
    m.append(e.entity_type.as_str());
    m.append(" · **Aliases** ");
    m.append(write_names(&e.alias_list()).as_str());
    m.append(" · **Confidence** ");
    m.append(e.confidence.to_fixed(2).as_str());
    m.append(" · **Live** ");
    m.append(write_truth(e.is_live));
    m.append(" · **First seen** ");
    m.append(shorten(e.first_seen.as_str(), 10).as_str());
    m.append(" · **Last seen** ");
    m.append(shorten(e.last_seen.as_str(), 10).as_str());
    m.append(location.as_str());
    let mut time = String::new();
    if let Some(t) = as_of {
        time = " · **As of** ".to_owned();
        time.append(t);
    }
    m.append(time.as_str());
    m.append("\n\n");
    m
}

fn write_prompt(e: &WmEntity, s: &GraphSlice, refs: &Vec<SourceRef>, as_of: Option<&str>) -> (r:
    Option<String>)
    ensures
        opt_view(r) == assessment_prompt(e@, s@, rows(refs@), opt_str(as_of)),
{
    assert(s@.edges.len() == s.edges@.len());
    if s.edges.len() == 0 {
        return None;
    }
    let (ctx, src) = format_context(s, refs);
    let mut m = "SUBJECT: ".to_owned();
    m.append(e.canonical_name.as_str());
    m.append("\n");
    let mut time = String::new();
    if let Some(t) = as_of {
        time = "The graph is shown AS OF ".to_owned();
        time.append(t);
        time.append("; treat that as the present.\n");
    }
    m.append(time.as_str());
    m.append("CONTEXT\n");
    m.append(ctx.as_str());
    m.append("\nSOURCES\n");
    m.append(src.as_str());
    Some(m)
}

fn write_closing(e: &WmEntity, s: &GraphSlice, refs: &Vec<SourceRef>, license: Option<&str>) -> (r:
    String)
    ensures
        r@ == closing_text(e@, s@, rows(refs@), opt_str(license)),
{
    assert(s@.edges.len() == s.edges@.len());
    assert(s@.entities.len() == s.entities@.len());
    assert(rows(refs@).len() == refs@.len());
    let mut m = "\n## Sources (".to_owned();
    m.append(decimal_of(refs.len() as u64).as_str());
    m.append(")\n\n");
    m.append(list_sources(refs).as_str());
    m.append("\n---\n_");
    m.append(decimal_of(s.entities.len() as u64).as_str());
    m.append(" entities · ");
    m.append(decimal_of(s.edges.len() as u64).as_str());
    m.append(" relations in scope");
    let mut class = String::new();
    if let Some(c) = license {
        class = " · citing ".to_owned();
        class.append(c);
        class.append(" sources only");
    }
    m.append(class.as_str());
    m.append(" · public sources only; professional conduct only. `enargeia why \"");
    m.append(e.canonical_name.as_str());
    m.append("\"` for the full provenance trace._\n");
    m
}

/// Assembles the dossier on the entity that the query stands for, up to its assessment.
pub fn prepare(world: &World, query: &str, opts: &DossierOptions) -> (r: Result<Draft, NoEntity>)
    ensures
        match r {
            Ok(d) => meant(world@, query@) is Some && d@ == draft_of(
                world@,
                meant(world@, query@)->0,
                opt_str(opts.as_of),
                opt_str(opts.license_filter),
            ),
            Err(n) => meant(world@, query@) is None && n.query@ == query@,
        },
{
    let e = match find_entity(world, query) {
        Ok(e) => e,
        Err(n) => {
            return Err(n);
        },
    };
    let mut seeds: Vec<String> = Vec::new();
    seeds.push(e.id.clone());
    assert(views(seeds@) =~= seq![e@.id]);
    let (slice, refs) = scoped_slice(world, &seeds, 1, history_of(opts.as_of), opts.license_filter);
    let mut body = write_identity(world, &e, opts.as_of);
    body.append(write_timeline(&slice, &refs, e.id.as_str()).as_str());
    body.append(write_network(&slice, &refs, e.id.as_str()).as_str());
    Ok(
        Draft {
            body,
            prompt: write_prompt(&e, &slice, &refs, opts.as_of),
            closing: write_closing(&e, &slice, &refs, opts.license_filter),
        },
    )
}

/// The section that holds a model's assessment.
pub open spec fn assessment_text(model: Seq<char>, reply: Seq<char>) -> Seq<char> {
    "\n## Assessment ("@ + model + ")\n\n"@ + trim(reply) + "\n"@
}

/// The finished dossier; the assessment is the model's description and its reply, where one was
/// asked.
pub fn finish(draft: &Draft, assessment: Option<(&str, &str)>) -> (r: String)
    ensures
        r@ == draft@.body + (match assessment {
            Some(a) => assessment_text(a.0@, a.1@),
            None => seq![],
        }) + draft@.closing,
{
    let mut m = draft.body.clone();
    let mut section = String::new();
    if let Some(a) = assessment {
        section = "\n## Assessment (".to_owned();
        section.append(a.0);
        section.append(")\n\n");
        section.append(trimmed(a.1).as_str());
        section.append("\n");
    }
    m.append(section.as_str());
    m.append(draft.closing.as_str());
    m
}

/// The full dossier without an assessment.
pub fn dossier(world: &World, query: &str, opts: &DossierOptions) -> (r: Result<String, NoEntity>)
    ensures
        match r {
            Ok(text) => meant(world@, query@) is Some && ({
                let d = draft_of(
                    world@,
                    meant(world@, query@)->0,
                    opt_str(opts.as_of),
                    opt_str(opts.license_filter),
                );
                text@ == d.body + d.closing
            }),
            Err(n) => meant(world@, query@) is None && n.query@ == query@,
        },
{
    match prepare(world, query, opts) {
        Ok(d) => {
            let text = finish(&d, None);
            assert(text@ =~= d@.body + d@.closing);
            Ok(text)
        },
        Err(n) => Err(n),
    }
}

} // verus!
