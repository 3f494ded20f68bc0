//! Grounding: when a text bears out a relation, and what an audit removes.

use vstd::prelude::*;
use vstd::utf8::*;

use crate::audit::{
    after_audit, audited, finding, findings, first_named, pruned, source_text, without_entity,
    Finding,
};
use crate::context::all_names;
use crate::ground::{
    any_word_in, cue_words, folded, gap, grounded, is_near_pair, law_grounded_names_stand_near,
    lemma_nearest, names_text, nearest, occurrences_of, sentence_start, types_fit, window,
};
use crate::laws::lists::lemma_push_has;
use crate::models::{listed, CandidateModel, EdgeModel, EntityModel, SourceModel};
use crate::table::{kept, lemma_kept};
use crate::text::{lowercase, occurs_at};
use crate::world::{entity_of, item_of, WorldModel};

verus! {

// ---------------------------------------------------------------------------------------------
// Types

/// The relations of a person to an organization.
pub open spec fn is_position(rel: Seq<char>) -> bool {
    ||| rel == "ceo_of"@
    ||| rel == "cfo_of"@
    ||| rel == "cto_of"@
    ||| rel == "chairman_of"@
    ||| rel == "chair_of"@
    ||| rel == "founder_of"@
    ||| rel == "cofounder_of"@
    ||| rel == "co_founder_of"@
    ||| rel == "employed_by"@
    ||| rel == "works_at"@
    ||| rel == "member_of"@
}

/// The relations between organizations that money changes hands in.
pub open spec fn is_transaction(rel: Seq<char>) -> bool {
    ||| rel == "acquired"@
    ||| rel == "acquired_by"@
    ||| rel == "merged_with"@
    ||| rel == "invested_in"@
}

/// The types that a relation can have at its ends. A position is held by a person. Nobody acquires,
/// funds, heads or founds a person, nor has a seat in one. Places and events are no party to a
/// transaction, and a person is not the one who acts in it. A seat is in a place. A type that is
/// not known, "other", fits a position and a seat.
pub proof fn law_types_of_relations(rel: Seq<char>, a: Seq<char>, b: Seq<char>)
    ensures
        types_fit(rel, a, b) ==> {
            &&& is_position(rel) ==> a == "person"@ || a == "other"@
            &&& is_transaction(rel) || rel == "headquartered_in"@ || rel == "based_in"@ || rel
                == "ceo_of"@ || rel == "cfo_of"@ || rel == "cto_of"@ || rel == "chairman_of"@ || rel
                == "founder_of"@ ==> b != "person"@
            &&& is_transaction(rel) ==> a != "location"@ && a != "event"@ && b != "location"@ && b
                != "event"@ && a != "person"@
            &&& rel == "headquartered_in"@ || rel == "based_in"@ || rel == "located_in"@ ==> b
                == "location"@ || b == "other"@
        },
        a == "person"@ && b == "organization"@ && is_position(rel) && rel != "headquartered_in"@
            && rel != "based_in"@ && rel != "located_in"@ && !is_transaction(rel) ==> types_fit(
            rel,
            a,
            b,
        ),
        a == "organization"@ && b == "organization"@ && is_transaction(rel) && !is_position(rel)
            && rel != "headquartered_in"@ && rel != "based_in"@ && rel != "located_in"@
            ==> types_fit(rel, a, b),
        a == "organization"@ && b == "location"@ && (rel == "headquartered_in"@ || rel
            == "based_in"@ || rel == "located_in"@) && !is_position(rel) && !is_transaction(rel)
            ==> types_fit(rel, a, b),
        !is_position(rel) && !is_transaction(rel) && rel != "headquartered_in"@ && rel
            != "based_in"@ && rel != "located_in"@ ==> types_fit(rel, a, b),
{
    reveal_strlit("person");
    reveal_strlit("organization");
    reveal_strlit("location");
    reveal_strlit("event");
    assert("person"@.len() == 6 && "organization"@.len() == 12 && "location"@.len() == 8
        && "event"@.len() == 5);
}

// ---------------------------------------------------------------------------------------------
// Names in a text

/// When a text bears out a relation. Both names stand in it, and they are two; the types fit; an
/// occurrence of one is no more than four hundred characters from an occurrence of the other. Where
/// words go with the relation, one of them stands in the sentences of the nearest pair, and what
/// has to be said in one sentence is.
pub proof fn law_text_bears_out(
    text: Seq<char>,
    a: Seq<char>,
    b: Seq<char>,
    rel: Seq<char>,
    type_a: Seq<char>,
    type_b: Seq<char>,
    p: int,
    q: int,
)
    ensures
        ({
            let t = encode_utf8(text);
            let (oa, ob) = (
                occurrences_of(t, encode_utf8(folded(a))),
                occurrences_of(t, encode_utf8(folded(b))),
            );
            let yes = grounded(text, a, b, rel, type_a, type_b);
            &&& yes ==> types_fit(rel, type_a, type_b) && folded(a) != folded(b) && exists|
                x: int,
                y: int,
            |
                #![trigger gap(t, x, y)]
                gap(t, x, y) <= 400 && occurs_at(t, encode_utf8(folded(a)), x) && occurs_at(
                    t,
                    encode_utf8(folded(b)),
                    y,
                )
            &&& cue_words(rel) is None && types_fit(rel, type_a, type_b) && folded(a).len() > 0
                && folded(b).len() > 0 && folded(a) != folded(b) && oa.contains(p) && ob.contains(q)
                && gap(t, p, q) <= 400 ==> yes
            &&& cue_words(rel) is Some && types_fit(rel, type_a, type_b) && folded(a).len() > 0
                && folded(b).len() > 0 && folded(a) != folded(b) && oa.contains(p) && ob.contains(q)
                && gap(t, p, q) <= 400 && (forall|x: int, y: int|
                #![trigger window(t, x, y)]
                oa.contains(x) && ob.contains(y) ==> any_word_in(
                    window(t, x, y),
                    cue_words(rel)->0,
                ) && sentence_start(t, x) == sentence_start(t, y)) ==> yes
            &&& yes && (rel == "acquired"@ || rel == "acquired_by"@ || rel == "merged_with"@ || rel
                == "suing"@ || rel == "sued_by"@) ==> exists|x: int, y: int|
                #![trigger window(t, x, y)]
                oa.contains(x) && ob.contains(y) && gap(t, x, y) <= 400 && sentence_start(t, x)
                    == sentence_start(t, y) && cue_words(rel) is Some && any_word_in(
                    window(t, x, y),
                    cue_words(rel)->0,
                )
        }),
{
    let t = encode_utf8(text);
    let (oa, ob) = (
        occurrences_of(t, encode_utf8(folded(a))),
        occurrences_of(t, encode_utf8(folded(b))),
    );
    lemma_nearest(t, oa, ob);
    if grounded(text, a, b, rel, type_a, type_b) {
        law_grounded_names_stand_near(text, a, b, rel, type_a, type_b);
        let (x, y) = nearest(t, oa, ob)->0;
        assert(is_near_pair(t, oa, ob, (x, y)));
        let w = window(t, x, y);
    }
    if oa.contains(p) && ob.contains(q) && gap(t, p, q) <= 400 {
        assert(is_near_pair(t, oa, ob, (p, q)));
        let (x, y) = nearest(t, oa, ob)->0;
        assert(is_near_pair(t, oa, ob, (x, y)));
        let w = window(t, x, y);
    }
}

/// The words that go with a relation, one of which a text has to hold.
pub proof fn law_cue_words(rel: Seq<char>)
    ensures
        cue_words(rel) is Some <==> rel == "acquired"@ || rel == "acquired_by"@ || rel
            == "merged_with"@ || rel == "ceo_of"@ || rel == "cfo_of"@ || rel == "cto_of"@ || rel
            == "chairman_of"@ || rel == "chair_of"@ || rel == "founder_of"@ || rel
            == "cofounder_of"@ || rel == "co_founder_of"@ || rel == "suing"@ || rel == "sued_by"@
            || rel == "sues"@ || rel == "lawsuit_against"@ || rel == "invested_in"@ || rel
            == "investor_in"@ || rel == "funded"@ || rel == "funded_by"@ || rel == "backed_by"@
            || rel == "partner_of"@ || rel == "partnered_with"@ || rel == "partners_with"@ || rel
            == "headquartered_in"@ || rel == "based_in"@ || rel == "competes_with"@ || rel
            == "competitor_of"@ || rel == "rival_of"@ || rel == "launched"@ || rel == "launches"@
            || rel == "indicted"@ || rel == "charged"@ || rel == "sanctioned"@ || rel == "fined"@,
        rel == "acquired"@ || rel == "acquired_by"@ || rel == "merged_with"@ ==> cue_words(rel) == Some(
            seq!["acqui"@, "buy"@, "bought"@, "purchas"@, "takeover"@, "merg"@, "deal to"@, "sold to"@],
        ),
        rel == "ceo_of"@ ==> cue_words(rel) == Some(
            seq!["ceo"@, "chief executive"@],
        ),
        rel == "cfo_of"@ ==> cue_words(rel) == Some(
            seq!["cfo"@, "chief financial"@],
        ),
        rel == "cto_of"@ ==> cue_words(rel) == Some(
            seq!["cto"@, "chief technology"@, "chief technical"@],
        ),
        rel == "chairman_of"@ || rel == "chair_of"@ ==> cue_words(rel) == Some(
            seq!["chair"@],
        ),
        rel == "founder_of"@ || rel == "cofounder_of"@ || rel == "co_founder_of"@ ==> cue_words(rel) == Some(
            seq!["found"@, "started"@, "created"@],
        ),
        rel == "suing"@ || rel == "sued_by"@ || rel == "sues"@ || rel == "lawsuit_against"@ ==> cue_words(rel) == Some(
            seq!["sue"@, "suit"@, "litigat"@, "court"@, "complaint"@, "legal action"@, "plaintiff"@, "defendant"@],
        ),
        rel == "invested_in"@ || rel == "investor_in"@ || rel == "funded"@ || rel == "funded_by"@ || rel == "backed_by"@ ==> cue_words(rel) == Some(
            seq!["invest"@, "fund"@, "raised"@, "round"@, "backed"@, "stake"@, "capital"@, "valuation"@],
        ),
        rel == "partner_of"@ || rel == "partnered_with"@ || rel == "partners_with"@ ==> cue_words(rel) == Some(
            seq!["partner"@, "collaborat"@, "team up"@, "teamed up"@, "alliance"@, "agreement"@, "deal"@, "joint"@],
        ),
        rel == "headquartered_in"@ || rel == "based_in"@ ==> cue_words(rel) == Some(
            seq!["headquart"@, "based"@, "hq"@, "offices"@],
        ),
        rel == "competes_with"@ || rel == "competitor_of"@ || rel == "rival_of"@ ==> cue_words(rel) == Some(
            seq!["compet"@, "rival"@],
        ),
        rel == "launched"@ || rel == "launches"@ ==> cue_words(rel) == Some(
            seq!["launch"@, "releas"@, "unveil"@, "introduc"@, "announc"@],
        ),
        rel == "indicted"@ || rel == "charged"@ || rel == "sanctioned"@ || rel == "fined"@ ==> cue_words(rel) == Some(
            seq!["indict"@, "charg"@, "sanction"@, "fine"@, "penalt"@, "settle"@, "plead"@, "convict"@],
        ),
{
    reveal_strlit("acquired");
    reveal_strlit("acquired_by");
    reveal_strlit("merged_with");
    reveal_strlit("ceo_of");
    reveal_strlit("cfo_of");
    reveal_strlit("cto_of");
    reveal_strlit("chairman_of");
    reveal_strlit("chair_of");
    reveal_strlit("founder_of");
    reveal_strlit("cofounder_of");
    reveal_strlit("co_founder_of");
    reveal_strlit("suing");
    reveal_strlit("sued_by");
    reveal_strlit("sues");
    reveal_strlit("lawsuit_against");
    reveal_strlit("invested_in");
    reveal_strlit("investor_in");
    reveal_strlit("funded");
    reveal_strlit("funded_by");
    reveal_strlit("backed_by");
    reveal_strlit("partner_of");
    reveal_strlit("partnered_with");
    reveal_strlit("partners_with");
    reveal_strlit("headquartered_in");
    reveal_strlit("based_in");
    reveal_strlit("competes_with");
    reveal_strlit("competitor_of");
    reveal_strlit("rival_of");
    reveal_strlit("launched");
    reveal_strlit("launches");
    reveal_strlit("indicted");
    reveal_strlit("charged");
    reveal_strlit("sanctioned");
    reveal_strlit("fined");
    assert("acquired"@.len() == 8);
    assert("acquired_by"@.len() == 11);
    assert("merged_with"@.len() == 11);
    assert("ceo_of"@.len() == 6);
    assert("cfo_of"@.len() == 6);
    assert("cto_of"@.len() == 6);
    assert("chairman_of"@.len() == 11);
    assert("chair_of"@.len() == 8);
    assert("founder_of"@.len() == 10);
    assert("cofounder_of"@.len() == 12);
    assert("co_founder_of"@.len() == 13);
    assert("suing"@.len() == 5);
    assert("sued_by"@.len() == 7);
    assert("sues"@.len() == 4);
    assert("lawsuit_against"@.len() == 15);
    assert("invested_in"@.len() == 11);
    assert("investor_in"@.len() == 11);
    assert("funded"@.len() == 6);
    assert("funded_by"@.len() == 9);
    assert("backed_by"@.len() == 9);
    assert("partner_of"@.len() == 10);
    assert("partnered_with"@.len() == 14);
    assert("partners_with"@.len() == 13);
    assert("headquartered_in"@.len() == 16);
    assert("based_in"@.len() == 8);
    assert("competes_with"@.len() == 13);
    assert("competitor_of"@.len() == 13);
    assert("rival_of"@.len() == 8);
    assert("launched"@.len() == 8);
    assert("launches"@.len() == 8);
    assert("indicted"@.len() == 8);
    assert("charged"@.len() == 7);
    assert("sanctioned"@.len() == 10);
    assert("fined"@.len() == 5);
    assert("acquired"@[0] == 'a');
    assert("chair_of"@[0] == 'c');
    assert("based_in"@[0] == 'b');
    assert("rival_of"@[0] == 'r');
    assert("launched"@[0] == 'l');
    assert("launches"@[0] == 'l');
    assert("indicted"@[0] == 'i');
    assert("acquired_by"@[0] == 'a');
    assert("merged_with"@[0] == 'm');
    assert("chairman_of"@[0] == 'c');
    assert("invested_in"@[0] == 'i');
    assert("investor_in"@[0] == 'i');
    assert("ceo_of"@[1] == 'e');
    assert("cfo_of"@[1] == 'f');
    assert("cto_of"@[1] == 't');
    assert("ceo_of"@[0] == 'c');
    assert("funded"@[0] == 'f');
    assert("cfo_of"@[0] == 'c');
    assert("cto_of"@[0] == 'c');
    assert("founder_of"@[0] == 'f');
    assert("partner_of"@[0] == 'p');
    assert("sanctioned"@[0] == 's');
    assert("co_founder_of"@[0] == 'c');
    assert("partners_with"@[0] == 'p');
    assert("co_founder_of"@[2] == '_');
    assert("competes_with"@[2] == 'm');
    assert("competitor_of"@[2] == 'm');
    assert("suing"@[0] == 's');
    assert("fined"@[0] == 'f');
    assert("sued_by"@[0] == 's');
    assert("charged"@[0] == 'c');
    assert("invested_in"@[6] == 'e');
    assert("investor_in"@[6] == 'o');
    assert("funded_by"@[0] == 'f');
    assert("backed_by"@[0] == 'b');
    assert("competes_with"@[0] == 'c');
    assert("competitor_of"@[0] == 'c');
    assert("competes_with"@[6] == 'e');
    assert("competitor_of"@[6] == 'i');
    assert("launched"@[7] == 'd');
    assert("launches"@[7] == 's');
}

/// A name that a text holds is one of those that were looked for, and the first of them that is
/// there.
pub proof fn law_first_name_in_the_text(text: Seq<char>, names: Seq<Seq<char>>)
    ensures
        match first_named(text, names) {
            Some(n) => exists|k: int|
                0 <= k < names.len() && #[trigger] names[k] == n && names_text(text, n) && forall|
                    i: int,
                |
                    0 <= i < k ==> !names_text(text, #[trigger] names[i]),
            None => forall|i: int| 0 <= i < names.len() ==> !names_text(text, #[trigger] names[i]),
        },
    decreases names.len(),
{
    if names.len() > 0 && !names_text(text, names[0]) {
        let rest = names.drop_first();
        law_first_name_in_the_text(text, rest);
        match first_named(text, rest) {
            Some(n) => {
                let k = choose|k: int|
                    0 <= k < rest.len() && #[trigger] rest[k] == n && names_text(text, n)
                        && forall|i: int| 0 <= i < k ==> !names_text(text, #[trigger] rest[i]);
                assert(names[k + 1] == n);
                assert forall|i: int| 0 <= i < k + 1 implies !names_text(
                    text,
                    #[trigger] names[i],
                ) by {
                    if i > 0 {
                        assert(rest[i - 1] == names[i]);
                    }
                }
            },
            None => {
                assert forall|i: int| 0 <= i < names.len() implies !names_text(
                    text,
                    #[trigger] names[i],
                ) by {
                    if i > 0 {
                        assert(rest[i - 1] == names[i]);
                    }
                }
            },
        }
    } else if names.len() > 0 {
        assert(names[0] == first_named(text, names)->0);
    }
}

// ---------------------------------------------------------------------------------------------
// The audit

/// The source is stored, has text, and the text bears the relation out under the first name of each
/// end that it holds.
pub open spec fn bears_out(
    items: Seq<SourceModel>,
    id: Seq<char>,
    e: EdgeModel,
    a: EntityModel,
    b: EntityModel,
) -> bool {
    &&& item_of(items, id) is Some
    &&& ({
        let text = lowercase(item_of(items, id)->0.raw_text);
        &&& text.len() > 0
        &&& first_named(text, all_names(a)) is Some
        &&& first_named(text, all_names(b)) is Some
        &&& grounded(
            text,
            first_named(text, all_names(a))->0,
            first_named(text, all_names(b))->0,
            e.edge_type,
            a.entity_type,
            b.entity_type,
        )
    })
}

proof fn lemma_findings(
    ids: Seq<Seq<char>>,
    items: Seq<SourceModel>,
    e: EdgeModel,
    a: EntityModel,
    b: EntityModel,
)
    ensures
        findings(ids, items, e, a, b).0 <==> exists|i: int|
            0 <= i < ids.len() && source_text(items, #[trigger] ids[i]).len() > 0,
        findings(ids, items, e, a, b).1 <==> exists|i: int|
            0 <= i < ids.len() && bears_out(items, #[trigger] ids[i], e, a, b),
    decreases ids.len(),
{
    if ids.len() > 0 {
        let most = ids.drop_last();
        lemma_findings(most, items, e, a, b);
        assert(ids[ids.len() - 1] == ids.last());
        assert forall|i: int| 0 <= i < most.len() implies #[trigger] ids[i] == most[i] by {}
        if findings(most, items, e, a, b).0 {
            let i = choose|i: int|
                0 <= i < most.len() && source_text(items, #[trigger] most[i]).len() > 0;
            assert(ids[i] == most[i]);
        }
        if findings(most, items, e, a, b).1 {
            let i = choose|i: int|
                0 <= i < most.len() && bears_out(items, #[trigger] most[i], e, a, b);
            assert(ids[i] == most[i]);
        }
    }
}

/// What an audit finds of a relation: that an end is missing, that no source of it has text, that a
/// source bears it out, or else that it is invented.
pub proof fn law_findings_of_an_audit(w: WorldModel, e: EdgeModel)
    ensures
        ({
            let (a, b) = (entity_of(w.entities, e.from_id), entity_of(w.entities, e.to_id));
            let ids = listed(e.source_item_ids);
            let text = exists|i: int|
                0 <= i < ids.len() && item_of(w.source_items, #[trigger] ids[i]) is Some
                    && lowercase(item_of(w.source_items, ids[i])->0.raw_text).len() > 0;
            let borne = exists|i: int|
                0 <= i < ids.len() && bears_out(
                    w.source_items,
                    #[trigger] ids[i],
                    e,
                    a->0,
                    b->0,
                );
            &&& a is None || b is None <==> finding(w, e) == Finding::Dangling
            &&& a is Some && b is Some && !text ==> finding(w, e) == Finding::NoText
            &&& a is Some && b is Some && borne ==> finding(w, e) == Finding::Grounded
            &&& a is Some && b is Some && text && !borne ==> finding(w, e) == Finding::Invented
        }),
{
    let (a, b) = (entity_of(w.entities, e.from_id), entity_of(w.entities, e.to_id));
    if a is Some && b is Some {
        let ids = listed(e.source_item_ids);
        lemma_findings(ids, w.source_items, e, a->0, b->0);
        if exists|i: int|
            0 <= i < ids.len() && bears_out(w.source_items, #[trigger] ids[i], e, a->0, b->0) {
            let i = choose|i: int|
                0 <= i < ids.len() && bears_out(w.source_items, #[trigger] ids[i], e, a->0, b->0);
            assert(source_text(w.source_items, ids[i]).len() > 0);
        }
        if exists|i: int|
            0 <= i < ids.len() && item_of(w.source_items, #[trigger] ids[i]) is Some && lowercase(
                item_of(w.source_items, ids[i])->0.raw_text,
            ).len() > 0 {
            let i = choose|i: int|
                0 <= i < ids.len() && item_of(w.source_items, #[trigger] ids[i]) is Some
                    && lowercase(item_of(w.source_items, ids[i])->0.raw_text).len() > 0;
            assert(source_text(w.source_items, ids[i]).len() > 0);
        }
        if exists|i: int|
            0 <= i < ids.len() && source_text(w.source_items, #[trigger] ids[i]).len() > 0 {
            let i = choose|i: int|
                0 <= i < ids.len() && source_text(w.source_items, #[trigger] ids[i]).len() > 0;
            assert(item_of(w.source_items, ids[i]) is Some);
        }
    }
}

/// The relation is typed and invented.
pub open spec fn is_invented(w: WorldModel, e: EdgeModel) -> bool {
    e.edge_type != "mentioned_with"@ && finding(w, e) == Finding::Invented
}

proof fn lemma_failed_are_invented(
    w: WorldModel,
    edges: Seq<EdgeModel>,
    delete: bool,
    id: Seq<char>,
)
    ensures
        audited(w, edges, delete).failed.contains(id) <==> exists|i: int|
            0 <= i < edges.len() && (#[trigger] edges[i]).id == id && is_invented(w, edges[i]),
    decreases edges.len(),
{
    if edges.len() > 0 {
        let most = edges.drop_last();
        let last = edges.last();
        lemma_failed_are_invented(w, most, delete, id);
        lemma_push_has(audited(w, most, delete).failed, last.id, id);
        assert(edges[edges.len() - 1] == last);
        assert forall|i: int| 0 <= i < most.len() implies #[trigger] edges[i] == most[i] by {}
        if audited(w, most, delete).failed.contains(id) {
            let i = choose|i: int|
                0 <= i < most.len() && (#[trigger] most[i]).id == id && is_invented(w, most[i]);
            assert(edges[i] == most[i]);
        }
    } else {
        assert(!audited(w, edges, delete).failed.contains(id));
    }
}

/// An audit that deletes removes the invented relations and keeps every other one; one that does
/// not delete changes nothing. It says how many typed relations it checked, and of those how many
/// stood, failed or had no text to go by; it deletes as many as failed.
pub proof fn law_audit_is_exact(w: WorldModel, e: EdgeModel)
    requires
        w.edges.len() < usize::MAX,
    ensures
        after_audit(w, false) == w,
        after_audit(w, true) == (WorldModel { edges: after_audit(w, true).edges, ..w }),
        after_audit(w, true).edges.contains(e) <==> w.edges.contains(e) && forall|i: int|
            0 <= i < w.edges.len() && (#[trigger] w.edges[i]).id == e.id ==> !is_invented(
                w,
                w.edges[i],
            ),
        ({
            let (dry, wet) = (audited(w, w.edges, false), audited(w, w.edges, true));
            &&& dry.stats.deleted == 0
            &&& wet.stats.deleted == wet.stats.failed
            &&& dry.stats.failed == wet.stats.failed
            &&& dry.stats.failed == dry.failed.len()
            &&& dry.lines == wet.lines
            &&& dry.lines.len() == dry.failed.len()
            &&& dry.stats.kept + dry.stats.failed + dry.stats.no_source_text <= dry.stats.checked
        }),
{
    let stays = |x: EdgeModel| !audited(w, w.edges, true).failed.contains(x.id);
    lemma_kept(w.edges, stays, e);
    lemma_failed_are_invented(w, w.edges, true, e.id);
    lemma_audit_counts(w, w.edges);
}

proof fn lemma_audit_counts(w: WorldModel, edges: Seq<EdgeModel>)
    requires
        edges.len() < usize::MAX,
    ensures
        ({
            let (dry, wet) = (audited(w, edges, false), audited(w, edges, true));
            &&& dry.stats.deleted == 0
            &&& wet.stats.deleted == wet.stats.failed
            &&& dry.stats.failed == wet.stats.failed
            &&& dry.stats.failed == dry.failed.len()
            &&& dry.lines == wet.lines
            &&& dry.lines.len() == dry.failed.len()
            &&& dry.stats.kept + dry.stats.failed + dry.stats.no_source_text <= dry.stats.checked
            &&& dry.stats.checked <= edges.len()
        }),
    decreases edges.len(),
{
    if edges.len() > 0 {
        lemma_audit_counts(w, edges.drop_last());
    }
}

// ---------------------------------------------------------------------------------------------
// Pruning

/// Removing an entity removes it and what hangs on it, and leaves all else: other entities, the
/// relations between them, and the mentions, of which its own are marked as rejected.
pub proof fn law_removal_is_exact(
    w: WorldModel,
    id: Seq<char>,
    a: EntityModel,
    e: EdgeModel,
    i: int,
)
    ensures
        ({
            let after = without_entity(w, id);
            &&& after.entities.contains(a) <==> w.entities.contains(a) && a.id != id
            &&& after.edges.contains(e) <==> w.edges.contains(e) && e.from_id != id && e.to_id != id
            &&& after.candidates.len() == w.candidates.len()
            &&& 0 <= i < w.candidates.len() && w.candidates[i].best_match_entity_id != Some(id)
                ==> after.candidates[i] == w.candidates[i]
            &&& 0 <= i < w.candidates.len() && w.candidates[i].best_match_entity_id == Some(id)
                ==> after.candidates[i] == (CandidateModel {
                best_match_entity_id: None,
                status: "rejected_name"@,
                ..w.candidates[i]
            })
            &&& after.source_items == w.source_items
            &&& after.decisions == w.decisions
        }),
{
    lemma_kept(w.entities, |x: EntityModel| x.id != id, a);
    lemma_kept(w.edges, |x: EdgeModel| x.from_id != id && x.to_id != id, e);
}

/// Pruning removes every entity whose name is not plausible and no other.
pub proof fn law_pruning_removes_the_implausible(
    w: WorldModel,
    es: Seq<EntityModel>,
    plausible: Seq<bool>,
    a: EntityModel,
)
    ensures
        pruned(w, es, plausible).entities.contains(a) <==> w.entities.contains(a) && forall|i: int|
            0 <= i < es.len() && (#[trigger] es[i]).id == a.id ==> plausible[i],
    decreases es.len(),
{
    if es.len() > 0 {
        let most = es.drop_last();
        let n = es.len() - 1;
        law_pruning_removes_the_implausible(w, most, plausible, a);
        let rest = pruned(w, most, plausible);
        lemma_kept(rest.entities, |x: EntityModel| x.id != es.last().id, a);
        assert(es[n] == es.last());
        assert forall|i: int| 0 <= i < n implies #[trigger] es[i] == most[i] by {}
        if forall|i: int| 0 <= i < most.len() && (#[trigger] most[i]).id == a.id ==> plausible[i] {
            assert forall|i: int| 0 <= i < n && (#[trigger] es[i]).id == a.id implies plausible[i] by {
                assert(most[i] == es[i]);
            }
        }
        if forall|i: int| 0 <= i < es.len() && (#[trigger] es[i]).id == a.id ==> plausible[i] {
            assert forall|i: int| 0 <= i < most.len() && (#[trigger] most[i]).id == a.id implies
                plausible[i] by {
                assert(es[i] == most[i]);
            }
        }
    }
}

/// A pruning names the entities that it finds implausible, in order, and no others.
pub proof fn law_pruning_names_the_implausible(
    es: Seq<EntityModel>,
    plausible: Seq<bool>,
    e: EntityModel,
    p: bool,
)
    requires
        plausible.len() == es.len(),
    ensures
        ({
            let lines = crate::audit::pruning_lines(es, plausible);
            let more = crate::audit::pruning_lines(es.push(e), plausible.push(p));
            &&& p ==> more == lines
            &&& !p ==> more == lines.push(e.canonical_name + " ["@ + e.entity_type + "] "@ + e.id)
            &&& crate::audit::pruning_lines(seq![], seq![]).len() == 0
        }),
{
    assert(es.push(e).drop_last() =~= es);
    lemma_pruning_lines(es, plausible, plausible.push(p));
}

proof fn lemma_pruning_lines(es: Seq<EntityModel>, p: Seq<bool>, q: Seq<bool>)
    requires
        es.len() <= p.len(),
        es.len() <= q.len(),
        forall|i: int| 0 <= i < es.len() ==> #[trigger] p[i] == q[i],
    ensures
        crate::audit::pruning_lines(es, p) == crate::audit::pruning_lines(es, q),
    decreases es.len(),
{
    if es.len() > 0 {
        lemma_pruning_lines(es.drop_last(), p, q);
        assert(p[es.len() - 1] == q[es.len() - 1]);
    }
}

} // verus!
