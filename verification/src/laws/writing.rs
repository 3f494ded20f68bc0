//! Writing: what the texts that are handed out hold.

use vstd::prelude::*;

use crate::context::{
    citation, cited_ids, context_text, distinct_edges, entity_line, ids_of, inquiry, name_in,
    numbered, relation_line, scoped, source_line, sources_text, MomentModel, RefModel, SliceModel,
};
use crate::dossier::{
    draft_of, identity_text, network_text, period, timeline, timeline_line, timeline_text,
};
use crate::models::{listed, CandidateModel, EdgeModel, EntityModel, SourceModel};
use crate::text::{decimal, flat, occurs, occurs_at, short_form};
use crate::watch::{bare_time, bullet, digest_text, edge_bullet, DigestModel, LineModel};
use crate::why::{
    edge_line, head_text, mention_lines, mentions_text, relations_text, tier_of, trace,
};
use crate::world::{item_of, WorldModel};

verus! {

// ---------------------------------------------------------------------------------------------
// Parts of texts

/// What stands between two texts stands in the whole.
pub proof fn lemma_within(a: Seq<char>, x: Seq<char>, b: Seq<char>)
    ensures
        occurs(a + x + b, x),
{
    let all = a + x + b;
    assert(all.subrange(a.len() as int, (a.len() + x.len()) as int) =~= x);
    assert(occurs_at(all, x, a.len() as int));
}

/// What stands in a part of a text stands in the text.
pub proof fn lemma_within_part(a: Seq<char>, x: Seq<char>, b: Seq<char>, y: Seq<char>)
    requires
        occurs(x, y),
    ensures
        occurs(a + x + b, y),
{
    let all = a + x + b;
    let i = choose|i: int| occurs_at(x, y, i);
    let n = a.len() + i;
    assert(all.subrange(n, n + y.len()) =~= x.subrange(i, i + y.len()));
    assert(occurs_at(all, y, n));
}

/// Texts that are put together hold each of them.
pub proof fn lemma_flat_holds(parts: Seq<Seq<char>>, k: int)
    requires
        0 <= k < parts.len(),
    ensures
        occurs(flat(parts), parts[k]),
    decreases parts.len(),
{
    let most = parts.drop_last();
    let none = Seq::<char>::empty();
    if k < most.len() {
        assert(most[k] == parts[k]);
        lemma_flat_holds(most, k);
        lemma_within_part(none, flat(most), parts.last(), parts[k]);
        assert(none + flat(most) + parts.last() =~= flat(parts));
    } else {
        lemma_within(flat(most), parts.last(), none);
        assert(flat(most) + parts.last() + none =~= flat(parts));
    }
}

// ---------------------------------------------------------------------------------------------
// The context of a question

/// A relation is cited by the numbers of those of its sources that are numbered, in their order,
/// and by no others.
pub proof fn law_citations_are_the_sources(
    ids: Seq<Seq<char>>,
    refs: Seq<RefModel>,
    r: RefModel,
)
    ensures
        citation(ids, seq![]).len() == 0,
        ids.contains(r.id) ==> citation(ids, refs.push(r)) == citation(ids, refs) + ("["@
            + decimal(r.number) + "]"@),
        !ids.contains(r.id) ==> citation(ids, refs.push(r)) == citation(ids, refs),
{
    assert(refs.push(r).drop_last() =~= refs);
}

/// The context names every entity of a slice with its type, and every relation of it with both of
/// its ends, its type and its sources.
pub proof fn law_context_tells_all(
    slice: SliceModel,
    refs: Seq<RefModel>,
    i: int,
    j: int,
)
    requires
        0 <= i < slice.entities.len(),
        0 <= j < distinct_edges(slice.edges).len(),
    ensures
        ({
            let e = slice.entities[i];
            let d = distinct_edges(slice.edges)[j];
            let text = context_text(slice, refs);
            &&& occurs(text, e.canonical_name + " (type: "@ + e.entity_type)
            &&& occurs(
                text,
                name_in(slice.entities, d.from_id) + " --["@ + d.edge_type + "]--> "@ + name_in(
                    slice.entities,
                    d.to_id,
                ),
            )
            &&& occurs(text, citation(listed(d.source_item_ids), refs))
        }),
{
    let es = slice.entities.map_values(|e: EntityModel| entity_line(e));
    let ds = distinct_edges(slice.edges);
    let rs = ds.map_values(|e: EdgeModel| relation_line(e, slice.entities, refs));
    let none = Seq::<char>::empty();
    let e = slice.entities[i];
    let d = ds[j];
    lemma_flat_holds(es, i);
    lemma_flat_holds(rs, j);
    assert(es[i] == entity_line(e));
    assert(rs[j] == relation_line(d, slice.entities, refs));
    let text = context_text(slice, refs);
    let (p, q) = ("KNOWN ENTITIES:\n"@, "\nRELATIONS:\n"@);
    assert(text =~= p + flat(es) + (q + flat(rs)));
    assert(text =~= (p + flat(es) + q) + flat(rs) + none);
    let x = e.canonical_name + " (type: "@ + e.entity_type;
    let (a, b) = (
        "- ["@ + short_form(e.id, 8) + "] "@,
        ", confidence: "@ + crate::double::fixed(e.confidence, 2) + ")\n"@,
    );
    assert(entity_line(e) =~= a + x + b);
    lemma_within(a, x, b);
    let la = choose|la: int| occurs_at(flat(es), es[i], la);
    assert(flat(es) =~= flat(es).take(la) + es[i] + flat(es).skip(la + es[i].len()));
    lemma_within_part(flat(es).take(la), es[i], flat(es).skip(la + es[i].len()), x);
    lemma_within_part(p, flat(es), q + flat(rs), x);
    let y = name_in(slice.entities, d.from_id) + " --["@ + d.edge_type + "]--> "@ + name_in(
        slice.entities,
        d.to_id,
    );
    let c = citation(listed(d.source_item_ids), refs);
    let line = rs[j];
    assert(line =~= "- "@ + y + (" (sources: "@ + c + ")\n"@));
    lemma_within("- "@, y, " (sources: "@ + c + ")\n"@);
    assert(line =~= ("- "@ + y + " (sources: "@) + c + ")\n"@);
    lemma_within("- "@ + y + " (sources: "@, c, ")\n"@);
    let lb = choose|lb: int| occurs_at(flat(rs), line, lb);
    let (u, v) = (flat(rs).take(lb), flat(rs).skip(lb + line.len()));
    assert(flat(rs) =~= u + line + v);
    lemma_within_part(u, line, v, y);
    lemma_within_part(u, line, v, c);
    lemma_within_part(p + flat(es) + q, flat(rs), none, y);
    lemma_within_part(p + flat(es) + q, flat(rs), none, c);
}

/// The list of sources shows every one with its number, its address and its license class.
pub proof fn law_sources_are_listed(refs: Seq<RefModel>, i: int)
    requires
        0 <= i < refs.len(),
    ensures
        occurs(sources_text(refs), source_line(refs[i])),
        occurs(
            source_line(refs[i]),
            refs[i].source_ref + " ("@ + refs[i].license_class + ")\n"@,
        ),
{
    let ls = refs.map_values(|s: RefModel| source_line(s));
    lemma_flat_holds(ls, i);
    assert(ls[i] == source_line(refs[i]));
    let s = refs[i];
    let x = s.source_ref + " ("@ + s.license_class + ")\n"@;
    let none = Seq::<char>::empty();
    let front = decimal(s.number) + ". "@ + (match s.published_at {
        Some(d) => short_form(d, 10) + " · "@,
        None => seq![],
    }) + (if s.title.len() == 0 {
        "(untitled)"@
    } else {
        s.title
    }) + " — "@;
    assert(source_line(s) =~= front + x + none);
    lemma_within(front, x, none);
}

/// A question without a match is not put to a model. Otherwise the model sees the question and the
/// context of two steps around the matches, of the relations in force now, or at the time that was
/// asked for, and under the license scope; and the sources of just that context are listed.
pub proof fn law_question_is_put_with_its_context(
    w: WorldModel,
    seeds: Seq<EntityModel>,
    question: Seq<char>,
    as_of: Option<Seq<char>>,
    license: Option<Seq<char>>,
)
    ensures
        inquiry(w, seeds, question, as_of, license) is None <==> seeds.len() == 0,
        inquiry(w, seeds, question, as_of, license) matches Some((prompt, sources)) ==> {
            let moment = if as_of is Some {
                MomentModel::At(as_of->0)
            } else {
                MomentModel::Present
            };
            let slice = scoped(w, ids_of(seeds), 2, moment, license);
            let refs = numbered(cited_ids(slice.edges), w.source_items);
            &&& occurs(prompt, context_text(slice, refs))
            &&& occurs(prompt, "\n\nQUESTION: "@ + question)
            &&& sources == sources_text(refs)
        },
{
    if let Some((prompt, sources)) = inquiry(w, seeds, question, as_of, license) {
        let moment = if as_of is Some {
            MomentModel::At(as_of->0)
        } else {
            MomentModel::Present
        };
        let slice = scoped(w, ids_of(seeds), 2, moment, license);
        let refs = numbered(cited_ids(slice.edges), w.source_items);
        let c = context_text(slice, refs);
        let q = "\n\nQUESTION: "@ + question;
        let none = Seq::<char>::empty();
        assert(prompt =~= "CONTEXT:\n"@ + c + q);
        lemma_within("CONTEXT:\n"@, c, q);
        assert(prompt =~= ("CONTEXT:\n"@ + c) + q + none);
        lemma_within("CONTEXT:\n"@ + c, q, none);
    }
}

/// Under a license scope the entities of a slice stay and its relations are those of the class;
/// without one the slice stays as it is.
pub proof fn law_scope_touches_only_relations(
    w: WorldModel,
    seeds: Seq<Seq<char>>,
    depth: nat,
    moment: MomentModel,
    license: Option<Seq<char>>,
)
    ensures
        ({
            let all = crate::context::slice_of(w, seeds, depth, moment);
            let part = scoped(w, seeds, depth, moment, license);
            &&& part.entities == all.entities
            &&& license is None ==> part == all
            &&& license is Some ==> part.edges == crate::context::licensed_edges(
                all.edges,
                w.source_items,
                license->0,
            )
        }),
{
}

// ---------------------------------------------------------------------------------------------
// The dossier

/// A dossier covers one step around its subject, over the whole history or as it was at a time; it
/// names the subject, every typed relation, and the sources; an assessment is asked for exactly
/// where there is a relation.
pub proof fn law_dossier_covers_its_subject(
    w: WorldModel,
    e: EntityModel,
    as_of: Option<Seq<char>>,
    license: Option<Seq<char>>,
    k: int,
)
    ensures
        ({
            let moment = if as_of is Some {
                MomentModel::At(as_of->0)
            } else {
                MomentModel::Ever
            };
            let s = scoped(w, seq![e.id], 1, moment, license);
            let refs = numbered(cited_ids(s.edges), w.source_items);
            let d = draft_of(w, e, as_of, license);
            let at = timeline(s.edges);
            &&& occurs(d.body, "# Dossier: "@ + e.canonical_name)
            &&& 0 <= k < at.len() ==> occurs(
                d.body,
                timeline_line(s.edges[at[k]], s.entities, refs, e.id),
            )
            &&& occurs(d.closing, sources_text(refs))
            &&& d.prompt is Some <==> s.edges.len() > 0
            &&& d.prompt is Some ==> occurs(d.prompt->0, context_text(s, refs)) && occurs(
                d.prompt->0,
                "SUBJECT: "@ + e.canonical_name,
            )
        }),
{
    let moment = if as_of is Some {
        MomentModel::At(as_of->0)
    } else {
        MomentModel::Ever
    };
    let none = Seq::<char>::empty();
    let s = scoped(w, seq![e.id], 1, moment, license);
    let refs = numbered(cited_ids(s.edges), w.source_items);
    let d = draft_of(w, e, as_of, license);
    let at = timeline(s.edges);
    let id_text = identity_text(e, crate::geo::place_of_entity(w.geo, e.id), as_of);
    let t_text = timeline_text(s, refs, e.id);
    let n_text = network_text(s, refs, e.id);
    let x = "# Dossier: "@ + e.canonical_name;
    let tail = id_text.skip(x.len() as int);
    assert(id_text =~= none + x + tail);
    lemma_within(none, x, tail);
    assert(d.body =~= none + id_text + (t_text + n_text));
    lemma_within_part(none, id_text, t_text + n_text, x);
    if 0 <= k < at.len() {
        let ls = Seq::new(at.len(), |k: int| timeline_line(s.edges[at[k]], s.entities, refs, e.id));
        lemma_flat_holds(ls, k);
        let front = "## Timeline ("@ + decimal(at.len()) + " typed relations)\n\n"@ + (
        if at.len() == 0 {
            "_no typed relations yet — run Tier 2 enrichment on this entity's sources_\n"@
        } else {
            seq![]
        });
        assert(t_text =~= front + flat(ls) + none);
        lemma_within_part(front, flat(ls), none, ls[k]);
        assert(d.body =~= id_text + t_text + n_text);
        lemma_within_part(id_text, t_text, n_text, ls[k]);
    }
    let st = sources_text(refs);
    let head = "\n## Sources ("@ + decimal(refs.len()) + ")\n\n"@;
    let rest = d.closing.skip((head + st).len() as int);
    assert(d.closing =~= head + st + rest);
    lemma_within(head, st, rest);
    if s.edges.len() > 0 {
        let p = d.prompt->0;
        let c = context_text(s, refs);
        let subject = "SUBJECT: "@ + e.canonical_name;
        let front = subject + "\n"@ + (match as_of {
            Some(t) => "The graph is shown AS OF "@ + t + "; treat that as the present.\n"@,
            None => seq![],
        }) + "CONTEXT\n"@;
        let back = "\nSOURCES\n"@ + st;
        assert(p =~= front + c + back);
        lemma_within(front, c, back);
        let after = p.skip(subject.len() as int);
        assert(p =~= none + subject + after);
        lemma_within(none, subject, after);
    }
}

/// A relation of the timeline shows since when it holds and, where it was superseded, until when,
/// which way it points from the subject, and both ends.
pub proof fn law_timeline_lines(
    e: EdgeModel,
    es: Seq<EntityModel>,
    refs: Seq<RefModel>,
    id: Seq<char>,
)
    ensures
        occurs(timeline_line(e, es, refs, id), period(e)),
        e.from_id == id ==> occurs(
            timeline_line(e, es, refs, id),
            name_in(es, e.from_id) + " "@ + "→"@ + " `"@ + e.edge_type + "` "@ + name_in(
                es,
                e.to_id,
            ),
        ),
        e.from_id != id ==> occurs(
            timeline_line(e, es, refs, id),
            name_in(es, e.from_id) + " "@ + "←"@ + " `"@ + e.edge_type + "` "@ + name_in(
                es,
                e.to_id,
            ),
        ),
        e.valid_at is Some ==> occurs(period(e), short_form(e.valid_at->0, 10)),
        e.invalid_at is Some ==> occurs(period(e), short_form(e.invalid_at->0, 10)),
{
    let none = Seq::<char>::empty();
    let line = timeline_line(e, es, refs, id);
    let c = " "@ + citation(listed(e.source_item_ids), refs) + "\n"@;
    let arrow = if e.from_id == id {
        "→"@
    } else {
        "←"@
    };
    let x = name_in(es, e.from_id) + " "@ + arrow + " `"@ + e.edge_type + "` "@ + name_in(
        es,
        e.to_id,
    );
    assert(line =~= "- **"@ + period(e) + ("** "@ + x + c));
    lemma_within("- **"@, period(e), "** "@ + x + c);
    assert(line =~= ("- **"@ + period(e) + "** "@) + x + c);
    lemma_within("- **"@ + period(e) + "** "@, x, c);
    match (e.valid_at, e.invalid_at) {
        (Some(v), None) => {
            assert(period(e) =~= none + short_form(v, 10) + " –"@);
            lemma_within(none, short_form(v, 10), " –"@);
        },
        (Some(v), Some(i)) => {
            let (a, b) = (short_form(v, 10), short_form(i, 10));
            assert(period(e) =~= none + a + (" – "@ + b + " (superseded)"@));
            lemma_within(none, a, " – "@ + b + " (superseded)"@);
            assert(period(e) =~= (a + " – "@) + b + " (superseded)"@);
            lemma_within(a + " – "@, b, " (superseded)"@);
        },
        (None, Some(i)) => {
            assert(period(e) =~= "– "@ + short_form(i, 10) + none);
            lemma_within("– "@, short_form(i, 10), none);
        },
        (None, None) => {},
    }
}

// ---------------------------------------------------------------------------------------------
// The digest and the trace

/// A digest shows everything that it escalates, and the first sixty of the relations that came up.
pub proof fn law_digest_shows_its_escalations(d: DigestModel, i: int, j: int)
    ensures
        0 <= i < d.escalations.len() ==> occurs(digest_text(d), "- "@ + d.escalations[i] + "\n"@),
        0 <= j < d.new_typed_edges.len() && j < 60 ==> occurs(
            digest_text(d),
            edge_bullet(d.new_typed_edges[j]),
        ),
{
    let none = Seq::<char>::empty();
    let text = digest_text(d);
    let es = d.escalations.map_values(|t: Seq<char>| bullet(t));
    let front = crate::watch::counts_text(d) + "## ESCALATE ("@ + decimal(d.escalations.len())
        + ")\n\n"@ + (if d.escalations.len() == 0 {
        "_nothing warrants interruption this cycle_\n"@
    } else {
        seq![]
    });
    let mid = "\n## New typed relations ("@ + decimal(d.new_typed_edges.len()) + ")\n\n"@;
    let shown = crate::watch::first(d.new_typed_edges, 60);
    let ls = shown.map_values(|l: LineModel| edge_bullet(l));
    let back = text.skip((front + flat(es) + mid + flat(ls)).len() as int);
    assert(text =~= front + flat(es) + (mid + flat(ls) + back));
    if 0 <= i < d.escalations.len() {
        lemma_flat_holds(es, i);
        assert(es[i] == "- "@ + d.escalations[i] + "\n"@);
        lemma_within_part(front, flat(es), mid + flat(ls) + back, es[i]);
    }
    if 0 <= j < d.new_typed_edges.len() && j < 60 {
        lemma_flat_holds(ls, j);
        assert(shown[j] == d.new_typed_edges[j]);
        assert(ls[j] == edge_bullet(d.new_typed_edges[j]));
        assert(text =~= (front + flat(es) + mid) + flat(ls) + back);
        lemma_within_part(front + flat(es) + mid, flat(ls), back, ls[j]);
    }
}

/// A trace shows every mention and every relation of its entity.
pub proof fn law_trace_shows_all(w: WorldModel, e: EntityModel, i: int, j: int)
    ensures
        ({
            let ms = crate::why::mentions_of(w, e.id);
            let rs = crate::why::relations_of(w.edges, e.id, false);
            &&& occurs(trace(w, e), head_text(e))
            &&& 0 <= i < ms.len() ==> occurs(
                trace(w, e),
                mention_lines(
                    w.candidates[ms[i]],
                    item_of(w.source_items, w.candidates[ms[i]].source_item_id)->0,
                ),
            )
            &&& 0 <= j < rs.len() ==> occurs(
                trace(w, e),
                edge_line(w.entities, w.edges[rs[j]], e.id),
            )
        }),
{
    let none = Seq::<char>::empty();
    let text = trace(w, e);
    let (h, m, r, u) = (
        head_text(e),
        mentions_text(w, e.id),
        relations_text(w, e.id),
        crate::why::humans_text(w, e.id),
    );
    assert(text =~= none + h + (m + r + u));
    lemma_within(none, h, m + r + u);
    let ms = crate::why::mentions_of(w, e.id);
    let rs = crate::why::relations_of(w.edges, e.id, false);
    if 0 <= i < ms.len() {
        let ls = Seq::new(
            ms.len(),
            |k: int|
                mention_lines(
                    w.candidates[ms[k]],
                    item_of(w.source_items, w.candidates[ms[k]].source_item_id)->0,
                ),
        );
        lemma_flat_holds(ls, i);
        let front = "\nMENTIONS ("@ + decimal(ms.len()) + "):\n"@;
        assert(m =~= front + flat(ls) + none);
        lemma_within_part(front, flat(ls), none, ls[i]);
        assert(text =~= h + m + (r + u));
        lemma_within_part(h, m, r + u, ls[i]);
    }
    if 0 <= j < rs.len() {
        let ls = Seq::new(rs.len(), |k: int| edge_line(w.entities, w.edges[rs[k]], e.id));
        lemma_flat_holds(ls, j);
        let front = "\nRELATIONS ("@ + decimal(rs.len()) + "):\n"@;
        assert(r =~= front + flat(ls) + none);
        lemma_within_part(front, flat(ls), none, ls[j]);
        assert(text =~= (h + m) + r + u);
        lemma_within_part(h + m, r, u, ls[j]);
    }
}

// ---------------------------------------------------------------------------------------------
// The brief and the export

/// A brief shows every question with its answer.
pub proof fn law_brief_answers_every_question(
    m: crate::mission::Mission,
    w: WorldModel,
    generated: Seq<char>,
    answers: Seq<Seq<char>>,
    i: int,
)
    requires
        0 <= i < answers.len(),
    ensures
        occurs(
            crate::mission::brief_text(m, w, generated, answers),
            m.questions@[i]@ + "\n\n"@ + answers[i],
        ),
{
    let ls = Seq::new(
        answers.len(),
        |k: int| crate::mission::answer_text(k, m.questions@[k]@, answers[k]),
    );
    let front = crate::mission::opening_text(m, w, generated);
    let back = crate::mission::appendix_text(w);
    let x = m.questions@[i]@ + "\n\n"@ + answers[i];
    let number = "## "@ + decimal((i + 1) as nat) + ". "@;
    lemma_flat_holds(ls, i);
    assert(ls[i] =~= number + x + "\n\n"@);
    lemma_within(number, x, "\n\n"@);
    let at = choose|at: int| occurs_at(flat(ls), ls[i], at);
    let (u, v) = (flat(ls).take(at), flat(ls).skip(at + ls[i].len()));
    assert(flat(ls) =~= u + ls[i] + v);
    lemma_within_part(u, ls[i], v, x);
    assert(crate::mission::brief_text(m, w, generated, answers) =~= front + flat(ls) + back);
    lemma_within_part(front, flat(ls), back, x);
}

/// What is exported of an entity and of a relation is what is stored of it.
pub proof fn law_export_is_faithful(e: EntityModel, d: EdgeModel)
    ensures
        ({
            let (x, y) = (
                crate::mission::exported_entity(e),
                crate::mission::exported_edge(d),
            );
            &&& x.id == e.id
            &&& x.name == e.canonical_name
            &&& x.entity_type == e.entity_type
            &&& x.aliases == listed(e.aliases)
            &&& x.confidence == e.confidence
            &&& x.is_live == e.is_live
            &&& y.from == d.from_id
            &&& y.to == d.to_id
            &&& y.edge_type == d.edge_type
            &&& y.weight == d.weight
            &&& y.valid_at == d.valid_at
            &&& y.invalid_at == d.invalid_at
            &&& y.sources == listed(d.source_item_ids)
        }),
{
}

/// A trace says of each mention what became of it and in which pass: in the first, where it was
/// scored or an entity was made for it, else in the second or by a human.
pub proof fn law_trace_names_the_pass(c: CandidateModel, s: SourceModel)
    ensures
        c.feature_scores is Some ==> occurs(mention_lines(c, s), c.status + " ("@ + "tier1"@),
        c.feature_scores is None && (c.status == "needs_llm"@ || c.status == "new"@ || c.status
            == "rejected"@) ==> occurs(
            mention_lines(c, s),
            c.status + " ("@ + "tier1, created here"@,
        ),
        c.feature_scores is None && c.status != "needs_llm"@ && c.status != "new"@ && c.status
            != "rejected"@ ==> occurs(mention_lines(c, s), c.status + " ("@ + "tier2/human"@),
{
    let kind = match c.mention_type_guess {
        Some(l) => l,
        None => "?"@,
    };
    let tier = tier_of(c);
    let front = "  - \""@ + c.mention_text + "\" ["@ + kind + "] → "@;
    let x = c.status + " ("@ + tier;
    let all = mention_lines(c, s);
    let begin = front + c.status + " ("@ + tier;
    let rest = all.skip(begin.len() as int);
    assert(all =~= begin + rest);
    assert(begin =~= front + x);
    lemma_within(front, x, rest);
}

// ---------------------------------------------------------------------------------------------
// The name of a digest

/// A time is stripped of its colons and hyphens and of nothing else: what is left has none, a
/// text without any stays as it is, and each part of a text is stripped for itself.
pub proof fn law_bare_times_have_no_marks(s: Seq<char>, t: Seq<char>)
    ensures
        !bare_time(s).contains(':'),
        !bare_time(s).contains('-'),
        !s.contains(':') && !s.contains('-') ==> bare_time(s) == s,
        bare_time(s + t) == bare_time(s) + bare_time(t),
        bare_time(":"@).len() == 0,
        bare_time("-"@).len() == 0,
    decreases s.len() + t.len(),
{
    reveal_strlit(":");
    reveal_strlit("-");
    reveal_with_fuel(bare_time, 2);
    assert(":"@.drop_last() =~= seq![]);
    assert("-"@.drop_last() =~= seq![]);
    if s.len() > 0 {
        let most = s.drop_last();
        law_bare_times_have_no_marks(most, seq![]);
        assert(most.push(s.last()) =~= s);
        assert forall|c: char| most.contains(c) implies #[trigger] s.contains(c) by {
            let k = most.index_of(c);
            assert(s[k] == c);
        }
        assert(s.contains(s.last())) by {
            assert(s[s.len() - 1] == s.last());
        }
    }
    if t.len() > 0 {
        law_bare_times_have_no_marks(s, t.drop_last());
        assert((s + t).drop_last() =~= s + t.drop_last());
        assert((s + t).last() == t.last());
        assert(bare_time(s + t) =~= bare_time(s) + bare_time(t));
    } else {
        assert(s + t =~= s);
        assert(bare_time(s) + bare_time(t) =~= bare_time(s));
    }
}

} // verus!
