//! Selective enrichment by a language model. It runs only over mentions that the deterministic
//! pass could not resolve with confidence (`needs_llm`), in bounded batches, never inline with
//! ingestion. The model's output is never trusted blindly: every proposed entity goes back
//! through the same matcher as any other mention, and a relation is kept only where the text
//! grounds it.

use vstd::prelude::*;
use vstd::string::*;

use crate::double::Double;
use crate::ground::{grounded, relation_grounded};
use crate::json::{
    double_in, field_double, field_list, field_str, item_at, item_double, item_str, items_in,
    text_in, Json,
};
use crate::matcher::Weights;
use crate::models::{rows, CandidateModel};
use crate::resolve::{
    consistent, count_one, entities_stay, law_one_holder_at_a_time, limited,
    link_entities_typed_as, linked, observed, one_more, set_status, upsert_resolved_entity_as,
    upserted, with_status,
};
use crate::text::{
    alphanumeric, chars_of, join, joined, list_has, lowercase, opt_owned, opt_view, pieces,
    split_at_char, str_eq, string_of, sub_chars, trim, trimmed, views,
};
use crate::world::{
    are_stamps, find_item, is_stamp, item_of, stamp, Stamp, StampModel, World, WorldModel,
};

verus! {

/// What the model is told.
pub const SYSTEM_PROMPT: &'static str = "You extract real-world entities and their relations from a short text passage. Respond with ONLY a JSON object, no prose, matching this shape exactly: {\"entities\":[{\"mention\":string,\"canonical_name\":string,\"entity_type\":string,\"confidence\":number(0-1)}],\"relations\":[{\"a\":string,\"b\":string,\"relation_type\":string}]}. entity_type must be one of: person, organization, location, event, product, vessel, aircraft, satellite, other. canonical_name is the normalized real-world name (e.g. \"Recorded Future\" not \"RF\" or \"the company\"). relation_type is a short snake_case verb phrase; prefer these when they apply: ceo_of, cfo_of, cto_of, founder_of, chairman_of, headquartered_in, based_in, owned_by, acquired, acquired_by, invested_in, partner_of, suing, employs, member_of, located_in, launched, competes_with. Every relation must be an object with keys a, b, relation_type, where a and b are mention strings from entities. If nothing is extractable, return {\"entities\":[],\"relations\":[]}.";

/// How much of a text the model is shown.
pub const SNIPPET_CHARS: usize = 4000;

/// The bits of the double 0.6, the confidence of an entity that comes without one.
pub const DEFAULT_CONFIDENCE: u64 = 0x3fe3333333333333;

// ---------------------------------------------------------------------------------------------
// Decoding

/// A proposed entity.
#[derive(Debug)]
pub struct LlmEntity {
    pub mention: String,
    pub canonical_name: String,
    pub entity_type: String,
    pub confidence: Double,
}

#[verifier::ext_equal]
pub struct ProposalModel {
    pub mention: Seq<char>,
    pub canonical_name: Seq<char>,
    pub entity_type: Seq<char>,
    pub confidence: Double,
}

impl View for LlmEntity {
    type V = ProposalModel;

    open spec fn view(&self) -> ProposalModel {
        ProposalModel {
            mention: self.mention@,
            canonical_name: self.canonical_name@,
            entity_type: self.entity_type@,
            confidence: self.confidence,
        }
    }
}

/// A proposed relation.
#[derive(Debug)]
pub struct LlmRelation {
    pub a: String,
    pub b: String,
    pub relation_type: String,
}

#[verifier::ext_equal]
pub struct RelationModel {
    pub a: Seq<char>,
    pub b: Seq<char>,
    pub relation_type: Seq<char>,
}

impl View for LlmRelation {
    type V = RelationModel;

    open spec fn view(&self) -> RelationModel {
        RelationModel { a: self.a@, b: self.b@, relation_type: self.relation_type@ }
    }
}

/// What the model proposes.
#[derive(Debug)]
pub struct LlmExtraction {
    pub entities: Vec<LlmEntity>,
    pub relations: Vec<LlmRelation>,
}

#[verifier::ext_equal]
pub struct ExtractionModel {
    pub entities: Seq<ProposalModel>,
    pub relations: Seq<RelationModel>,
}

impl View for LlmExtraction {
    type V = ExtractionModel;

    open spec fn view(&self) -> ExtractionModel {
        ExtractionModel { entities: rows(self.entities@), relations: rows(self.relations@) }
    }
}

/// The text of the first of the named fields that is a text.
pub open spec fn first_text(j: Json, names: Seq<Seq<char>>) -> Option<Seq<char>>
    decreases names.len(),
{
    if names.len() == 0 {
        None
    } else {
        match text_in(j.field(names[0])) {
            Some(t) => Some(t),
            None => first_text(j, names.drop_first()),
        }
    }
}

/// A text, trimmed, if something is left of it.
pub open spec fn trimmed_some(o: Option<Seq<char>>) -> Option<Seq<char>> {
    match o {
        Some(t) => if trim(t).len() > 0 {
            Some(trim(t))
        } else {
            None
        },
        None => None,
    }
}

/// What a list of names holds.
pub open spec fn name_views(v: Seq<&'static str>) -> Seq<Seq<char>> {
    Seq::new(v.len(), |i: int| v[i]@)
}

fn str_at(j: &Json, names: &Vec<&'static str>) -> (r: Option<String>)
    ensures
        opt_view(r) == trimmed_some(first_text(*j, name_views(names@))),
{
    let ghost all = name_views(names@);
    let mut i: usize = 0;
    assert(all.skip(0) =~= all);
    while i < names.len()
        invariant
            i <= names@.len(),
            all == name_views(names@),
            first_text(*j, all) == first_text(*j, all.skip(i as int)),
        decreases names.len() - i,
    {
        assert(all.skip(i as int)[0] == names@[i as int]@);
        assert(all.skip(i as int).drop_first() =~= all.skip(i + 1));
        if let Some(t) = field_str(j, names[i]) {
            let s = trimmed(t);
            return if s.as_str().is_empty() {
                None
            } else {
                Some(s)
            };
        }
        i += 1;
    }
    None
}

/// What an item says of an entity: mention, canonical name, type and confidence. Objects carry
/// them as fields, lists by position; a text is both names.
pub open spec fn entity_parts(item: Json) -> (
    Option<Seq<char>>,
    Option<Seq<char>>,
    Option<Seq<char>>,
    Option<Double>,
) {
    match item {
        Json::Object(_) => (
            trimmed_some(first_text(item, seq!["mention"@, "text"@, "name"@])),
            trimmed_some(first_text(item, seq!["canonical_name"@, "canonical"@, "name"@])),
            trimmed_some(first_text(item, seq!["entity_type"@, "type"@, "label"@])),
            double_in(item.field("confidence"@)),
        ),
        Json::List(parts) => (
            text_in(item_at(parts@, 0)),
            text_in(item_at(parts@, 1)),
            text_in(item_at(parts@, 2)),
            double_in(item_at(parts@, 3)),
        ),
        Json::Text(s) => (Some(s@), Some(s@), None, None),
        _ => (None, None, None, None),
    }
}

/// `o`, or else `d`.
pub open spec fn or_text(o: Option<Seq<char>>, d: Seq<char>) -> Seq<char> {
    match o {
        Some(t) => t,
        None => d,
    }
}

/// The entity that an item proposes, if it names one.
pub open spec fn proposal(item: Json) -> Option<ProposalModel> {
    let (mention, canonical, kind, confidence) = entity_parts(item);
    let named = match mention {
        Some(m) => Some(m),
        None => canonical,
    };
    match named {
        Some(m) => Some(
            ProposalModel {
                mention: m,
                canonical_name: or_text(canonical, m),
                entity_type: lowercase(or_text(kind, "other"@)),
                confidence: (match confidence {
                    Some(c) => c,
                    None => Double { bits: DEFAULT_CONFIDENCE },
                }).spec_clamp(
                    Double { bits: crate::double::ZERO },
                    Double { bits: crate::double::ONE },
                ),
            },
        ),
        None => None,
    }
}

pub open spec fn proposals(items: Seq<Json>) -> Seq<ProposalModel>
    decreases items.len(),
{
    if items.len() == 0 {
        seq![]
    } else {
        match proposal(items.last()) {
            Some(p) => proposals(items.drop_last()).push(p),
            None => proposals(items.drop_last()),
        }
    }
}

/// What an item says of a relation: the two names and the type.
pub open spec fn relation_parts(item: Json) -> (
    Option<Seq<char>>,
    Option<Seq<char>>,
    Option<Seq<char>>,
) {
    match item {
        Json::Object(_) => (
            trimmed_some(first_text(item, seq!["a"@, "from"@, "subject"@, "source"@])),
            trimmed_some(first_text(item, seq!["b"@, "to"@, "object"@, "target"@])),
            trimmed_some(
                first_text(item, seq!["relation_type"@, "relation"@, "type"@, "predicate"@]),
            ),
        ),
        Json::List(parts) => if parts@.len() >= 3 {
            (parts@[0].text(), parts@[1].text(), parts@[2].text())
        } else {
            (None, None, None)
        },
        _ => (None, None, None),
    }
}

/// The relation that an item proposes, if it is complete.
pub open spec fn relation(item: Json) -> Option<RelationModel> {
    match relation_parts(item) {
        (Some(a), Some(b), Some(t)) => Some(
            RelationModel { a, b, relation_type: relation_name(t) },
        ),
        _ => None,
    }
}

pub open spec fn relations(items: Seq<Json>) -> Seq<RelationModel>
    decreases items.len(),
{
    if items.len() == 0 {
        seq![]
    } else {
        match relation(items.last()) {
            Some(r) => relations(items.drop_last()).push(r),
            None => relations(items.drop_last()),
        }
    }
}

/// What a reply proposes.
pub open spec fn extraction(v: Json) -> ExtractionModel {
    ExtractionModel {
        entities: match items_in(v.field("entities"@)) {
            Some(items) => proposals(items),
            None => seq![],
        },
        relations: match items_in(v.field("relations"@)) {
            Some(items) => relations(items),
            None => seq![],
        },
    }
}

/// The longest name of a relation.
pub const RELATION_CHARS: usize = 48;

/// A text with what is neither a letter nor a digit as underscores.
pub open spec fn underscored(s: Seq<char>) -> Seq<char> {
    Seq::new(
        s.len(),
        |i: int|
            if alphanumeric(s[i]) {
                s[i]
            } else {
                '_'
            },
    )
}

/// A relation type in snake case: the words of the lower-cased text, one underscore apart, cut
/// to the longest name; `related_to` where no word is left.
pub open spec fn relation_name(t: Seq<char>) -> Seq<char> {
    let ws = crate::matcher::nonempty(pieces(underscored(lowercase(trim(t))), '_'));
    let all = joined(ws, "_"@);
    if all.len() == 0 {
        "related_to"@
    } else if all.len() > RELATION_CHARS {
        all.take(RELATION_CHARS as int)
    } else {
        all
    }
}

pub fn normalize_relation(t: &str) -> (r: String)
    ensures
        r@ == relation_name(t@),
{
    let lower = chars_of(trimmed(t).as_str().to_lowercase().as_str());
    let mut cs: Vec<char> = Vec::new();
    let mut i: usize = 0;
    while i < lower.len()
        invariant
            i <= lower@.len(),
            cs@.len() == i,
            forall|j: int| 0 <= j < i ==> cs@[j] == underscored(lower@)[j],
        decreases lower.len() - i,
    {
        cs.push(
            if lower[i].is_alphanumeric() {
                lower[i]
            } else {
                '_'
            },
        );
        i += 1;
    }
    assert(cs@ =~= underscored(lower@));
    let ps = split_at_char(&cs, '_');
    let ghost pv = views(ps@);
    let mut ws: Vec<String> = Vec::new();
    let mut k: usize = 0;
    assert(pv.take(0) =~= seq![]);
    assert(views(ws@) =~= seq![]);
    while k < ps.len()
        invariant
            k <= ps@.len(),
            pv == views(ps@),
            views(ws@) == crate::matcher::nonempty(pv.take(k as int)),
        decreases ps.len() - k,
    {
        assert(pv.take(k + 1).drop_last() =~= pv.take(k as int));
        assert(pv.take(k + 1).last() == ps@[k as int]@);
        let ghost done = views(ws@);
        if !ps[k].as_str().is_empty() {
            ws.push(ps[k].clone());
            assert(views(ws@) =~= done.push(ps@[k as int]@));
        }
        k += 1;
    }
    assert(pv.take(k as int) =~= pv);
    let all = join(&ws, "_");
    let out = chars_of(all.as_str());
    if out.len() == 0 {
        "related_to".to_owned()
    } else if out.len() > RELATION_CHARS {
        let cut = sub_chars(&out, 0, RELATION_CHARS);
        assert(cut@ =~= out@.take(RELATION_CHARS as int));
        string_of(&cut)
    } else {
        all
    }
}

/// The name of a relation is never empty and never longer than the longest name.
pub proof fn law_relation_names_are_bounded(t: Seq<char>)
    ensures
        0 < relation_name(t).len() <= RELATION_CHARS,
{
    reveal_strlit("related_to");
    assert("related_to"@.len() == 10);
}

fn decode_entity(item: &Json) -> (r: Option<LlmEntity>)
    ensures
        match r {
            Some(e) => proposal(*item) == Some(e@),
            None => proposal(*item) is None,
        },
{
    let (mention, canonical, kind, confidence) = match item {
        Json::Object(_) => {
            let a = vec!["mention", "text", "name"];
            let b = vec!["canonical_name", "canonical", "name"];
            let c = vec!["entity_type", "type", "label"];
            assert(name_views(a@) =~= seq!["mention"@, "text"@, "name"@]);
            assert(name_views(b@) =~= seq!["canonical_name"@, "canonical"@, "name"@]);
            assert(name_views(c@) =~= seq!["entity_type"@, "type"@, "label"@]);
            (
                str_at(item, &a),
                str_at(item, &b),
                str_at(item, &c),
                field_double(item, "confidence"),
            )
        },
        Json::List(parts) => (
            opt_owned(item_str(parts, 0)),
            opt_owned(item_str(parts, 1)),
            opt_owned(item_str(parts, 2)),
            item_double(parts, 3),
        ),
        Json::Text(s) => (Some(s.clone()), Some(s.clone()), None, None),
        _ => (None, None, None, None),
    };
    let named = match mention {
        Some(m) => m,
        None => match &canonical {
            Some(c) => c.clone(),
            None => {
                return None;
            },
        },
    };
    let confidence = match confidence {
        Some(c) => c,
        None => Double::from_bits(DEFAULT_CONFIDENCE),
    };
    let canonical_name = match canonical {
        Some(c) => c,
        None => named.clone(),
    };
    let entity_type = match kind {
        Some(k) => k.as_str().to_lowercase(),
        None => "other".to_lowercase(),
    };
    Some(
        LlmEntity {
            mention: named,
            canonical_name,
            entity_type,
            confidence: confidence.clamp(
                Double::from_bits(crate::double::ZERO),
                Double::from_bits(crate::double::ONE),
            ),
        },
    )
}

fn decode_relation(item: &Json) -> (r: Option<LlmRelation>)
    ensures
        match r {
            Some(e) => relation(*item) == Some(e@),
            None => relation(*item) is None,
        },
{
    let (a, b, t) = match item {
        Json::Object(_) => {
            let x = vec!["a", "from", "subject", "source"];
            let y = vec!["b", "to", "object", "target"];
            let z = vec!["relation_type", "relation", "type", "predicate"];
            assert(name_views(x@) =~= seq!["a"@, "from"@, "subject"@, "source"@]);
            assert(name_views(y@) =~= seq!["b"@, "to"@, "object"@, "target"@]);
            assert(name_views(z@) =~= seq!["relation_type"@, "relation"@, "type"@, "predicate"@]);
            (str_at(item, &x), str_at(item, &y), str_at(item, &z))
        },
        Json::List(parts) => {
            if parts.len() >= 3 {
                (
                    opt_owned(parts[0].as_str()),
                    opt_owned(parts[1].as_str()),
                    opt_owned(parts[2].as_str()),
                )
            } else {
                (None, None, None)
            }
        },
        _ => (None, None, None),
    };
    match (a, b, t) {
        (Some(a), Some(b), Some(t)) => Some(
            LlmRelation { a, b, relation_type: normalize_relation(t.as_str()) },
        ),
        _ => None,
    }
}

/// Lenient decoder: small local models produce duplicate keys, array-shaped relations, and stray
/// fields. Reading the fields by hand recovers most of those replies instead of discarding the
/// whole item.
pub fn decode_extraction(v: &Json) -> (r: LlmExtraction)
    ensures
        r@ == extraction(*v),
{
    let mut entities: Vec<LlmEntity> = Vec::new();
    assert(rows(entities@) =~= seq![]);
    if let Some(items) = field_list(v, "entities") {
        let mut i: usize = 0;
        assert(items@.take(0) =~= seq![]);
        while i < items.len()
            invariant
                i <= items@.len(),
                rows(entities@) == proposals(items@.take(i as int)),
            decreases items.len() - i,
        {
            assert(items@.take(i + 1).drop_last() =~= items@.take(i as int));
            let ghost done = rows(entities@);
            if let Some(e) = decode_entity(&items[i]) {
                let ghost ev = e@;
                entities.push(e);
                assert(rows(entities@) =~= done.push(ev));
            }
            i += 1;
        }
        assert(items@.take(i as int) =~= items@);
    }
    let mut found: Vec<LlmRelation> = Vec::new();
    assert(rows(found@) =~= seq![]);
    if let Some(items) = field_list(v, "relations") {
        let mut i: usize = 0;
        assert(items@.take(0) =~= seq![]);
        while i < items.len()
            invariant
                i <= items@.len(),
                rows(found@) == relations(items@.take(i as int)),
            decreases items.len() - i,
        {
            assert(items@.take(i + 1).drop_last() =~= items@.take(i as int));
            let ghost done = rows(found@);
            if let Some(e) = decode_relation(&items[i]) {
                let ghost ev = e@;
                found.push(e);
                assert(rows(found@) =~= done.push(ev));
            }
            i += 1;
        }
        assert(items@.take(i as int) =~= items@);
    }
    LlmExtraction { entities, relations: found }
}

// ---------------------------------------------------------------------------------------------
// Grounding

/// The type of the last proposed entity with the given name, whatever its case.
pub open spec fn type_named(ps: Seq<ProposalModel>, name: Seq<char>) -> Seq<char>
    decreases ps.len(),
{
    if ps.len() == 0 {
        "other"@
    } else if lowercase(ps.last().mention) == lowercase(name) || lowercase(
        ps.last().canonical_name,
    ) == lowercase(name) {
        ps.last().entity_type
    } else {
        type_named(ps.drop_last(), name)
    }
}

/// The text grounds the relation.
pub open spec fn is_grounded(
    ps: Seq<ProposalModel>,
    r: RelationModel,
    text_lower: Seq<char>,
) -> bool {
    grounded(
        text_lower,
        r.a,
        r.b,
        r.relation_type,
        type_named(ps, r.a),
        type_named(ps, r.b),
    )
}

/// The relations that the text grounds.
pub open spec fn grounded_relations(
    ps: Seq<ProposalModel>,
    rs: Seq<RelationModel>,
    text_lower: Seq<char>,
) -> Seq<RelationModel>
    decreases rs.len(),
{
    if rs.len() == 0 {
        seq![]
    } else if is_grounded(ps, rs.last(), text_lower) {
        grounded_relations(ps, rs.drop_last(), text_lower).push(rs.last())
    } else {
        grounded_relations(ps, rs.drop_last(), text_lower)
    }
}

fn find_type(ps: &Vec<LlmEntity>, name: &str) -> (r: String)
    ensures
        r@ == type_named(rows(ps@), name@),
{
    let lower = name.to_lowercase();
    let ghost all = rows(ps@);
    let mut n: usize = ps.len();
    assert(all.take(n as int) =~= all);
    while n > 0
        invariant
            n <= ps@.len(),
            all == rows(ps@),
            lower@ == lowercase(name@),
            type_named(all, name@) == type_named(all.take(n as int), name@),
        decreases n,
    {
        assert(all.take(n as int).drop_last() =~= all.take(n - 1));
        assert(all.take(n as int).last() == ps@[n - 1]@);
        let p = &ps[n - 1];
        if str_eq(p.mention.as_str().to_lowercase().as_str(), lower.as_str()) || str_eq(
            p.canonical_name.as_str().to_lowercase().as_str(),
            lower.as_str(),
        ) {
            return p.entity_type.clone();
        }
        n -= 1;
    }
    "other".to_owned()
}

/// Drops the relations that the item's text does not ground; returns what is left and how many
/// were dropped.
pub fn drop_ungrounded(x: LlmExtraction, text: &str) -> (r: (LlmExtraction, usize))
    ensures
        r.0@ == (ExtractionModel {
            relations: grounded_relations(x@.entities, x@.relations, lowercase(text@)),
            ..x@
        }),
        r.1 == x@.relations.len() - r.0@.relations.len(),
{
    let text_lower = text.to_lowercase();
    let ghost rs = x@.relations;
    let ghost ps = x@.entities;
    let mut kept: Vec<LlmRelation> = Vec::new();
    let mut dropped: usize = 0;
    let mut i: usize = 0;
    assert(rs.take(0) =~= seq![]);
    assert(rows(kept@) =~= seq![]);
    while i < x.relations.len()
        invariant
            i <= x.relations@.len(),
            rs == rows(x.relations@),
            ps == rows(x.entities@),
            text_lower@ == lowercase(text@),
            rows(kept@) == grounded_relations(ps, rs.take(i as int), text_lower@),
            dropped + kept@.len() == i,
        decreases x.relations.len() - i,
    {
        assert(rs.take(i + 1).drop_last() =~= rs.take(i as int));
        assert(rs.take(i + 1).last() == rs[i as int]);
        let rel = &x.relations[i];
        let type_a = find_type(&x.entities, rel.a.as_str());
        let type_b = find_type(&x.entities, rel.b.as_str());
        let ghost done = rows(kept@);
        if relation_grounded(
            text_lower.as_str(),
            rel.a.as_str(),
            rel.b.as_str(),
            rel.relation_type.as_str(),
            type_a.as_str(),
            type_b.as_str(),
        ) {
            kept.push(
                LlmRelation {
                    a: rel.a.clone(),
                    b: rel.b.clone(),
                    relation_type: rel.relation_type.clone(),
                },
            );
            assert(rows(kept@) =~= done.push(rs[i as int]));
        } else {
            dropped += 1;
        }
        i += 1;
    }
    assert(rs.take(i as int) =~= rs);
    assert(rows(kept@).len() == kept@.len());
    (LlmExtraction { entities: x.entities, relations: kept }, dropped)
}

// ---------------------------------------------------------------------------------------------
// Enrichment

/// How an enrichment run went.
#[derive(Clone, Copy, Debug, PartialEq, Eq, Structural)]
pub struct EnrichStats {
    pub candidates_processed: usize,
    pub entities_updated: usize,
    pub edges_created: usize,
    pub errors: usize,
    /// Relations that the text did not ground.
    pub ungrounded: usize,
}

impl EnrichStats {
    pub open spec fn zero() -> EnrichStats {
        EnrichStats {
            candidates_processed: 0,
            entities_updated: 0,
            edges_created: 0,
            errors: 0,
            ungrounded: 0,
        }
    }
}

impl Default for EnrichStats {
    fn default() -> (r: Self)
        ensures
            r == EnrichStats::zero(),
    {
        EnrichStats {
            candidates_processed: 0,
            entities_updated: 0,
            edges_created: 0,
            errors: 0,
            ungrounded: 0,
        }
    }
}

/// The items with a mention that waits for the model, each once, in order.
pub open spec fn waiting_items(cs: Seq<CandidateModel>) -> Seq<Seq<char>>
    decreases cs.len(),
{
    if cs.len() == 0 {
        seq![]
    } else {
        let r = waiting_items(cs.drop_last());
        if cs.last().status == "needs_llm"@ && !r.contains(cs.last().source_item_id) {
            r.push(cs.last().source_item_id)
        } else {
            r
        }
    }
}

/// Up to `batch_size` items with a mention that waits for the model: one call per item, so that
/// co-mentioned entities share a call.
pub fn pending_enrichment(world: &World, batch_size: i64) -> (r: Vec<String>)
    ensures
        views(r@) == limited(waiting_items(world@.candidates), batch_size),
{
    let ghost cs = world@.candidates;
    let mut out: Vec<String> = Vec::new();
    let mut i: usize = 0;
    assert(cs.take(0) =~= seq![]);
    assert(views(out@) =~= seq![]);
    while i < world.candidates.len()
        invariant
            i <= world.candidates@.len(),
            cs == rows(world.candidates@),
            views(out@) == waiting_items(cs.take(i as int)),
        decreases world.candidates.len() - i,
    {
        assert(cs.take(i + 1).drop_last() =~= cs.take(i as int));
        assert(cs.take(i + 1).last() == cs[i as int]);
        let ghost done = views(out@);
        let c = &world.candidates[i];
        if str_eq(c.status.as_str(), "needs_llm") && !list_has(&out, c.source_item_id.as_str()) {
            out.push(c.source_item_id.clone());
            assert(views(out@) =~= done.push(cs[i as int].source_item_id));
        }
        i += 1;
    }
    assert(cs.take(i as int) =~= cs);
    let ghost all = views(out@);
    assert(all.len() == out@.len());
    if batch_size >= 0 && (batch_size as u64) < (out.len() as u64) {
        out.truncate(batch_size as usize);
        assert(views(out@) =~= all.take(batch_size as int));
    }
    out
}

/// The text of an item that the model is shown: its beginning.
pub open spec fn snippet_of(text: Seq<char>) -> Seq<char> {
    if text.len() > SNIPPET_CHARS {
        text.take(SNIPPET_CHARS as int)
    } else {
        text
    }
}

pub fn snippet(text: &str) -> (r: String)
    ensures
        r@ == snippet_of(text@),
{
    let cs = chars_of(text);
    if cs.len() > SNIPPET_CHARS {
        let cut = sub_chars(&cs, 0, SNIPPET_CHARS);
        assert(cut@ =~= cs@.take(SNIPPET_CHARS as int));
        string_of(&cut)
    } else {
        text.to_owned()
    }
}

/// Where the application of proposals stands: the world, the entity of each name so far (the
/// last one counts) and the counts.
#[verifier::ext_equal]
pub struct EnrichState {
    pub world: WorldModel,
    pub names: Seq<(Seq<char>, Seq<char>)>,
    pub stats: EnrichStats,
}

/// The state after the proposed entities were resolved, one after the other.
pub open spec fn with_entities(
    st: EnrichState,
    ps: Seq<ProposalModel>,
    weights: Weights,
    stamps: Seq<StampModel>,
) -> EnrichState
    decreases ps.len(),
{
    if ps.len() == 0 {
        st
    } else {
        let before = with_entities(st, ps.drop_last(), weights, stamps);
        let p = ps.last();
        let (world, id) = upserted(
            before.world,
            p.mention,
            p.canonical_name,
            p.entity_type,
            p.confidence,
            weights,
            stamps[ps.len() - 1],
        );
        EnrichState {
            world,
            names: before.names.push((lowercase(p.mention), id)).push(
                (lowercase(p.canonical_name), id),
            ),
            stats: EnrichStats {
                entities_updated: one_more(before.stats.entities_updated),
                ..before.stats
            },
        }
    }
}

/// The entity that the name stands for: the last one entered.
pub open spec fn entity_named(names: Seq<(Seq<char>, Seq<char>)>, name: Seq<char>) -> Option<
    Seq<char>,
>
    decreases names.len(),
{
    if names.len() == 0 {
        None
    } else if names.last().0 == name {
        Some(names.last().1)
    } else {
        entity_named(names.drop_last(), name)
    }
}

/// The state after the relations between known names were recorded, one after the other.
pub open spec fn with_relations(
    st: EnrichState,
    rs: Seq<RelationModel>,
    item_id: Seq<char>,
    observed_at: Seq<char>,
    stamps: Seq<StampModel>,
) -> EnrichState
    decreases rs.len(),
{
    if rs.len() == 0 {
        st
    } else {
        let before = with_relations(st, rs.drop_last(), item_id, observed_at, stamps);
        let r = rs.last();
        match (
            entity_named(before.names, lowercase(r.a)),
            entity_named(before.names, lowercase(r.b)),
        ) {
            (Some(a), Some(b)) => EnrichState {
                world: WorldModel {
                    edges: linked(
                        before.world.edges,
                        a,
                        b,
                        r.relation_type,
                        item_id,
                        observed_at,
                        stamps[rs.len() - 1],
                    ),
                    ..before.world
                },
                stats: EnrichStats {
                    edges_created: one_more(before.stats.edges_created),
                    ..before.stats
                },
                ..before
            },
            _ => before,
        }
    }
}

/// The candidates with those of the item that waited for the model resolved.
pub open spec fn settled_candidates(cs: Seq<CandidateModel>, item_id: Seq<char>) -> Seq<
    CandidateModel,
> {
    Seq::new(
        cs.len(),
        |i: int|
            if cs[i].source_item_id == item_id && cs[i].status == "needs_llm"@ {
                CandidateModel { status: "resolved"@, ..cs[i] }
            } else {
                cs[i]
            },
    )
}

/// The world and the counts after a model's proposals for an item were applied. Every mention of
/// the item is resolved, whether or not the model matched it: an item that comes back empty must
/// not wait forever.
pub open spec fn enriched_world(
    w: WorldModel,
    stats: EnrichStats,
    item_id: Seq<char>,
    observed_at: Seq<char>,
    x: ExtractionModel,
    weights: Weights,
    entity_stamps: Seq<StampModel>,
    link_stamps: Seq<StampModel>,
) -> (WorldModel, EnrichStats) {
    let st = with_relations(
        with_entities(
            EnrichState { world: w, names: seq![], stats },
            x.entities,
            weights,
            entity_stamps,
        ),
        x.relations,
        item_id,
        observed_at,
        link_stamps,
    );
    (
        WorldModel {
            candidates: settled_candidates(st.world.candidates, item_id),
            source_items: with_status(st.world.source_items, item_id, "resolved"@),
            ..st.world
        },
        EnrichStats {
            candidates_processed: one_more(st.stats.candidates_processed),
            ..st.stats
        },
    )
}

/// What a list of named entities holds.
pub open spec fn named_views(v: Seq<(String, String)>) -> Seq<(Seq<char>, Seq<char>)> {
    Seq::new(v.len(), |i: int| (v[i].0@, v[i].1@))
}

fn look_up(names: &Vec<(String, String)>, name: &str) -> (r: Option<String>)
    ensures
        opt_view(r) == entity_named(named_views(names@), name@),
{
    let ghost all = named_views(names@);
    let mut n: usize = names.len();
    assert(all.take(n as int) =~= all);
    while n > 0
        invariant
            n <= names@.len(),
            all == named_views(names@),
            entity_named(all, name@) == entity_named(all.take(n as int), name@),
        decreases n,
    {
        assert(all.take(n as int).drop_last() =~= all.take(n - 1));
        assert(all.take(n as int).last() == all[n - 1]);
        if str_eq(names[n - 1].0.as_str(), name) {
            return Some(names[n - 1].1.clone());
        }
        n -= 1;
    }
    None
}

fn settle_candidates(world: &mut World, item_id: &str)
    ensures
        final(world)@ == (WorldModel {
            candidates: settled_candidates(old(world)@.candidates, item_id@),
            ..old(world)@
        }),
{
    let ghost w = world@;
    let ghost goal = settled_candidates(w.candidates, item_id@);
    let mut i: usize = 0;
    while i < world.candidates.len()
        invariant
            i <= world.candidates@.len(),
            world.candidates@.len() == w.candidates.len(),
            goal == settled_candidates(w.candidates, item_id@),
            world@ == (WorldModel { candidates: rows(world.candidates@), ..w }),
            forall|j: int| 0 <= j < i ==> (#[trigger] rows(world.candidates@)[j]) == goal[j],
            forall|j: int|
                i <= j < w.candidates.len() ==> (#[trigger] rows(world.candidates@)[j])
                    == w.candidates[j],
        decreases world.candidates.len() - i,
    {
        let ghost cur = rows(world.candidates@);
        assert(cur[i as int] == w.candidates[i as int]);
        if str_eq(world.candidates[i].source_item_id.as_str(), item_id) && str_eq(
            world.candidates[i].status.as_str(),
            "needs_llm",
        ) {
            world.candidates[i].status = "resolved".to_owned();
        }
        assert forall|j: int| 0 <= j < cur.len() && j != i implies (#[trigger] rows(
            world.candidates@,
        )[j]) == cur[j] by {}
        assert(rows(world.candidates@)[i as int] == goal[i as int]);
        i += 1;
    }
    assert(rows(world.candidates@) =~= goal);
}

/// Applies a model's proposals for an item, with a stamp for each entity and each relation.
pub fn apply_extraction(
    world: &mut World,
    stats: &mut EnrichStats,
    item_id: &str,
    observed_at: &str,
    x: &LlmExtraction,
    weights: &Weights,
    entity_stamps: &Vec<Stamp>,
    link_stamps: &Vec<Stamp>,
)
    requires
        weights.wf(),
        entity_stamps@.len() == x.entities@.len(),
        link_stamps@.len() == x.relations@.len(),
    ensures
        (final(world)@, *final(stats)) == enriched_world(
            old(world)@,
            *old(stats),
            item_id@,
            observed_at@,
            x@,
            *weights,
            rows(entity_stamps@),
            rows(link_stamps@),
        ),
{
    let ghost begin = EnrichState { world: world@, names: seq![], stats: *stats };
    let ghost ps = rows(x.entities@);
    let ghost es = rows(entity_stamps@);
    let mut names: Vec<(String, String)> = Vec::new();
    let mut i: usize = 0;
    assert(ps.take(0) =~= seq![]);
    assert(named_views(names@) =~= seq![]);
    while i < x.entities.len()
        invariant
            i <= x.entities@.len(),
            weights.wf(),
            entity_stamps@.len() == x.entities@.len(),
            ps == rows(x.entities@),
            es == rows(entity_stamps@),
            ({
                let st = with_entities(begin, ps.take(i as int), *weights, es);
                &&& world@ == st.world
                &&& named_views(names@) == st.names
                &&& *stats == st.stats
            }),
        decreases x.entities.len() - i,
    {
        assert(ps.take(i + 1).drop_last() =~= ps.take(i as int));
        assert(ps.take(i + 1).last() == x.entities@[i as int]@);
        assert(es[i as int] == entity_stamps@[i as int]@);
        let p = &x.entities[i];
        let id = upsert_resolved_entity_as(
            world,
            p.mention.as_str(),
            p.canonical_name.as_str(),
            p.entity_type.as_str(),
            p.confidence,
            weights,
            &entity_stamps[i],
        );
        let ghost done = named_views(names@);
        let ghost idv = id@;
        let lower_mention = p.mention.as_str().to_lowercase();
        let lower_name = p.canonical_name.as_str().to_lowercase();
        let ghost lm = lower_mention@;
        let ghost ln = lower_name@;
        names.push((lower_mention, id.clone()));
        names.push((lower_name, id));
        assert(named_views(names@) =~= done.push((lm, idv)).push((ln, idv)));
        stats.entities_updated = count_one(stats.entities_updated);
        i += 1;
    }
    assert(ps.take(i as int) =~= ps);
    let ghost mid = with_entities(begin, ps, *weights, es);
    let ghost rs = rows(x.relations@);
    let ghost ls = rows(link_stamps@);
    let mut k: usize = 0;
    assert(rs.take(0) =~= seq![]);
    while k < x.relations.len()
        invariant
            k <= x.relations@.len(),
            link_stamps@.len() == x.relations@.len(),
            rs == rows(x.relations@),
            ls == rows(link_stamps@),
            ({
                let st = with_relations(mid, rs.take(k as int), item_id@, observed_at@, ls);
                &&& world@ == st.world
                &&& named_views(names@) == st.names
                &&& *stats == st.stats
            }),
        decreases x.relations.len() - k,
    {
        assert(rs.take(k + 1).drop_last() =~= rs.take(k as int));
        assert(rs.take(k + 1).last() == x.relations@[k as int]@);
        assert(ls[k as int] == link_stamps@[k as int]@);
        let r = &x.relations[k];
        let a = look_up(&names, r.a.as_str().to_lowercase().as_str());
        let b = look_up(&names, r.b.as_str().to_lowercase().as_str());
        if let (Some(a), Some(b)) = (a, b) {
            link_entities_typed_as(
                world,
                a.as_str(),
                b.as_str(),
                r.relation_type.as_str(),
                item_id,
                observed_at,
                &link_stamps[k],
            );
            stats.edges_created = count_one(stats.edges_created);
        }
        k += 1;
    }
    assert(rs.take(k as int) =~= rs);
    settle_candidates(world, item_id);
    set_status(world, item_id, "resolved");
    stats.candidates_processed = count_one(stats.candidates_processed);
}

fn fresh_stamps(n: usize) -> (r: Vec<Stamp>)
    ensures
        r@.len() == n,
        are_stamps(rows(r@)),
{
    let mut out: Vec<Stamp> = Vec::new();
    let mut i: usize = 0;
    while i < n
        invariant
            i <= n,
            out@.len() == i,
            forall|k: int| 0 <= k < i ==> is_stamp((#[trigger] out@[k])@),
        decreases n - i,
    {
        out.push(stamp());
        i += 1;
    }
    assert forall|k: int| 0 <= k < n implies is_stamp(#[trigger] rows(out@)[k]) by {
        assert(is_stamp(out@[k]@));
    }
    out
}

/// The counts with the relations that were dropped.
pub open spec fn with_ungrounded(stats: EnrichStats, n: int) -> EnrichStats {
    EnrichStats {
        ungrounded: if stats.ungrounded + n <= usize::MAX {
            (stats.ungrounded + n) as usize
        } else {
            usize::MAX
        },
        ..stats
    }
}

/// Enriches one item with what the model replied; nothing where the call failed or its reply
/// held no object. An item that is gone is passed over.
pub fn enrich_item(
    world: &mut World,
    stats: &mut EnrichStats,
    item_id: &str,
    reply: Option<&Json>,
    weights: &Weights,
)
    requires
        weights.wf(),
    ensures
        match (item_of(old(world)@.source_items, item_id@), reply) {
            (None, _) => final(world)@ == old(world)@ && *final(stats) == *old(stats),
            (Some(_), None) => final(world)@ == old(world)@ && *final(stats) == (EnrichStats {
                errors: one_more(old(stats).errors),
                ..*old(stats)
            }),
            (Some(item), Some(v)) => {
                let x = extraction(*v);
                let rs = grounded_relations(x.entities, x.relations, lowercase(item.raw_text));
                exists|es: Seq<StampModel>, ls: Seq<StampModel>|
                    es.len() == x.entities.len() && ls.len() == rs.len() && are_stamps(es)
                        && are_stamps(ls) && (
                        final(world)@,
                        *final(stats),
                    ) == #[trigger] enriched_world(
                        old(world)@,
                        with_ungrounded(*old(stats), x.relations.len() - rs.len()),
                        item_id@,
                        observed(item),
                        (ExtractionModel { relations: rs, ..x }),
                        *weights,
                        es,
                        ls,
                    )
            },
        },
{
    let at = match find_item(&world.source_items, item_id) {
        Some(i) => i,
        None => {
            return;
        },
    };
    let v = match reply {
        Some(v) => v,
        None => {
            stats.errors = count_one(stats.errors);
            return;
        },
    };
    let text = world.source_items[at].raw_text.clone();
    let observed_at = match &world.source_items[at].published_at {
        Some(t) => t.clone(),
        None => world.source_items[at].ingested_at.clone(),
    };
    let (x, dropped) = drop_ungrounded(decode_extraction(v), text.as_str());
    stats.ungrounded = if dropped <= usize::MAX - stats.ungrounded {
        stats.ungrounded + dropped
    } else {
        usize::MAX
    };
    let ghost item = item_of(old(world)@.source_items, item_id@)->0;
    let ghost full = extraction(*v);
    let ghost rs = grounded_relations(full.entities, full.relations, lowercase(item.raw_text));
    assert(observed_at@ == observed(item));
    assert(x@ == (ExtractionModel { relations: rs, ..full }));
    assert(*stats == with_ungrounded(*old(stats), full.relations.len() - rs.len()));
    let entity_stamps = fresh_stamps(x.entities.len());
    let link_stamps = fresh_stamps(x.relations.len());
    apply_extraction(
        world,
        stats,
        item_id,
        observed_at.as_str(),
        &x,
        weights,
        &entity_stamps,
        &link_stamps,
    );
    proof {
        let es = rows(entity_stamps@);
        let ls = rows(link_stamps@);
        assert(x@.entities.len() == x.entities@.len());
        assert(x@.relations.len() == x.relations@.len());
        assert(es.len() == x@.entities.len());
        assert(ls.len() == x@.relations.len());
    }
}

proof fn lemma_entities_keep(
    st: EnrichState,
    ps: Seq<ProposalModel>,
    weights: Weights,
    stamps: Seq<StampModel>,
)
    ensures
        ({
            let after = with_entities(st, ps, weights, stamps).world;
            &&& entities_stay(st.world.entities, after.entities)
            &&& after.edges == st.world.edges
            &&& after.candidates == st.world.candidates
            &&& after.decorrelations == st.world.decorrelations
            &&& after.decisions == st.world.decisions
        }),
    decreases ps.len(),
{
    if ps.len() > 0 {
        lemma_entities_keep(st, ps.drop_last(), weights, stamps);
    }
}

proof fn lemma_relations_keep(
    st: EnrichState,
    rs: Seq<RelationModel>,
    item_id: Seq<char>,
    observed_at: Seq<char>,
    stamps: Seq<StampModel>,
)
    ensures
        ({
            let after = with_relations(st, rs, item_id, observed_at, stamps).world;
            &&& after.entities == st.world.entities
            &&& after.candidates == st.world.candidates
            &&& after.decorrelations == st.world.decorrelations
            &&& after.decisions == st.world.decisions
            &&& consistent(st.world.edges) ==> consistent(after.edges)
        }),
    decreases rs.len(),
{
    if rs.len() > 0 {
        lemma_relations_keep(st, rs.drop_last(), item_id, observed_at, stamps);
        let before = with_relations(st, rs.drop_last(), item_id, observed_at, stamps);
        let r = rs.last();
        if let (Some(a), Some(b)) = (
            entity_named(before.names, lowercase(r.a)),
            entity_named(before.names, lowercase(r.b)),
        ) {
            if consistent(before.world.edges) {
                law_one_holder_at_a_time(
                    before.world.edges,
                    a,
                    b,
                    r.relation_type,
                    item_id,
                    observed_at,
                    stamps[rs.len() - 1],
                );
            }
        }
    }
}

proof fn lemma_not_waiting(cs: Seq<CandidateModel>, item_id: Seq<char>)
    requires
        forall|i: int|
            0 <= i < cs.len() && (#[trigger] cs[i]).source_item_id == item_id ==> cs[i].status
                != "needs_llm"@,
    ensures
        !waiting_items(cs).contains(item_id),
    decreases cs.len(),
{
    if cs.len() > 0 {
        let most = cs.drop_last();
        assert forall|i: int| 0 <= i < most.len() && (#[trigger] most[i]).source_item_id
            == item_id implies most[i].status != "needs_llm"@ by {
            assert(most[i] == cs[i]);
        }
        lemma_not_waiting(most, item_id);
        assert(cs[cs.len() - 1] == cs.last());
        crate::matcher::lemma_push_contains(
            waiting_items(most),
            cs.last().source_item_id,
            item_id,
        );
    }
}

/// An item that was enriched does not wait for the model again, whatever came back; human
/// decisions stay, no entity is merged into another one, and consistent relations stay consistent.
pub proof fn law_enrichment_settles_and_keeps(
    w: WorldModel,
    stats: EnrichStats,
    item_id: Seq<char>,
    observed_at: Seq<char>,
    x: ExtractionModel,
    weights: Weights,
    es: Seq<StampModel>,
    ls: Seq<StampModel>,
)
    ensures
        ({
            let after = enriched_world(w, stats, item_id, observed_at, x, weights, es, ls).0;
            &&& !waiting_items(after.candidates).contains(item_id)
            &&& after.decorrelations == w.decorrelations
            &&& after.decisions == w.decisions
            &&& entities_stay(w.entities, after.entities)
            &&& consistent(w.edges) ==> consistent(after.edges)
        }),
{
    let begin = EnrichState { world: w, names: seq![], stats };
    let mid = with_entities(begin, x.entities, weights, es);
    lemma_entities_keep(begin, x.entities, weights, es);
    lemma_relations_keep(mid, x.relations, item_id, observed_at, ls);
    let after = enriched_world(w, stats, item_id, observed_at, x, weights, es, ls).0;
    reveal_strlit("needs_llm");
    reveal_strlit("resolved");
    assert("needs_llm"@.len() == 9);
    assert("resolved"@.len() == 8);
    lemma_not_waiting(after.candidates, item_id);
}

/// How many items a batch takes.
pub const BATCH_ITEMS: usize = 10;

/// The size of the next batch of a run that may enrich `limit` items and has enriched `done`;
/// nothing where the limit is reached or the last batch got nowhere.
pub fn next_batch(limit: usize, done: usize, last: Option<usize>) -> (r: Option<i64>)
    ensures
        r == if done >= limit || last == Some(0usize) {
            None
        } else if limit - done < BATCH_ITEMS {
            Some((limit - done) as i64)
        } else {
            Some(BATCH_ITEMS as i64)
        },
        r matches Some(n) ==> 1 <= n <= 10 && n <= limit - done,
        limit >= done + 10 && last != Some(0usize) ==> r == Some(10i64),
{
    if done >= limit {
        return None;
    }
    if let Some(n) = last {
        if n == 0 {
            return None;
        }
    }
    if limit - done < BATCH_ITEMS {
        Some((limit - done) as i64)
    } else {
        Some(BATCH_ITEMS as i64)
    }
}

} // verus!
