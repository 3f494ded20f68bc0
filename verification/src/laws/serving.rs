//! Serving: who may do what, what it costs, and what the lists hold.

use vstd::prelude::*;

use crate::auth::{
    asks_of, day_of, law_quota_counts_exactly, law_role_names_read_back, revocable, revoked,
    standing, token_row, token_with, PrincipalModel, Role, StoreModel, StoredModel, TokenModel,
};
use crate::hash::fingerprint;
use crate::laws::lists::{lemma_ranked, lists_highest_first};
use crate::models::{CandidateModel, EdgeModel, EntityModel};
use crate::order::{descending, lemma_ranking, lemma_smaller, opt_before, ranking, smaller};
use crate::server::{
    admission, asked_candidates, asked_edges, asked_entities, bearer_of, caller, edges_of,
    heaviest, listed_entities, permits, scope_of, score_key, within, Action, DenialModel,
};
use crate::table::{arranged, lemma_places, places};
use crate::text::before;
use crate::world::{StampModel, WorldModel};

verus! {

// ---------------------------------------------------------------------------------------------
// Callers

/// Operators may do everything, analysts ask and decide, clients only ask.
pub proof fn law_permissions(action: Action)
    ensures
        permits(Role::Operator, action),
        permits(Role::Analyst, action) <==> action != Action::Decorrelate,
        permits(Role::Client, action) <==> action == Action::Ask,
{
}

/// A bearer is what follows the word in the header, and nothing else is one.
pub proof fn law_bearer_follows_the_word(token: Seq<char>, header: Seq<char>)
    ensures
        bearer_of(Some("Bearer "@ + token)) == Some(token),
        bearer_of(None) is None,
        bearer_of(Some(header)) is Some ==> header == "Bearer "@ + bearer_of(Some(header))->0,
{
    reveal_strlit("Bearer ");
    let word = "Bearer "@;
    assert(word.len() == 7);
    assert((word + token).take(7) =~= word);
    assert((word + token).skip(7) =~= token);
    if bearer_of(Some(header)) is Some {
        assert(header =~= header.take(7) + header.skip(7));
    }
}

proof fn lemma_token_with(ts: Seq<StoredModel>, hash: Seq<char>)
    ensures
        token_with(ts, hash) is Some <==> exists|i: int|
            0 <= i < ts.len() && (#[trigger] ts[i]).token_hash == hash && ts[i].row.revoked_at
                is None,
        token_with(ts, hash) matches Some(row) ==> exists|k: int|
            0 <= k < ts.len() && (#[trigger] ts[k]).row == row && ts[k].token_hash == hash
                && row.revoked_at is None && forall|i: int|
                0 <= i < k ==> !((#[trigger] ts[i]).token_hash == hash && ts[i].row.revoked_at
                    is None),
    decreases ts.len(),
{
    if ts.len() > 0 {
        if ts[0].token_hash == hash && ts[0].row.revoked_at is None {
            assert(ts[0].row == token_with(ts, hash)->0);
        } else {
            let rest = ts.drop_first();
            lemma_token_with(rest, hash);
            if exists|i: int|
                0 <= i < ts.len() && (#[trigger] ts[i]).token_hash == hash && ts[i].row.revoked_at
                    is None {
                let i = choose|i: int|
                    0 <= i < ts.len() && (#[trigger] ts[i]).token_hash == hash
                        && ts[i].row.revoked_at is None;
                assert(rest[i - 1] == ts[i]);
            }
            if let Some(row) = token_with(rest, hash) {
                let k = choose|k: int|
                    0 <= k < rest.len() && (#[trigger] rest[k]).row == row && rest[k].token_hash
                        == hash && row.revoked_at is None && forall|i: int|
                        0 <= i < k ==> !((#[trigger] rest[i]).token_hash == hash
                            && rest[i].row.revoked_at is None);
                assert(ts[k + 1] == rest[k]);
                assert forall|i: int| 0 <= i < k + 1 implies !((#[trigger] ts[i]).token_hash
                    == hash && ts[i].row.revoked_at is None) by {
                    if i > 0 {
                        assert(rest[i - 1] == ts[i]);
                    }
                }
            }
        }
    }
}

/// Who a caller is. The root token is the operator's. Another one is known exactly where a token
/// of its fingerprint is stored and was not revoked. Without a token, or with an empty one, one is
/// let in only where neither a root token nor any other valid one is configured.
pub proof fn law_callers_are_known_by_token(
    ts: Seq<StoredModel>,
    root: Option<Seq<char>>,
    bearer: Option<Seq<char>>,
)
    ensures
        ({
            let bare = bearer is None || bearer->0.len() == 0;
            let configured = root is Some || exists|i: int|
                0 <= i < ts.len() && (#[trigger] ts[i]).row.revoked_at is None;
            let known = exists|i: int|
                0 <= i < ts.len() && (#[trigger] ts[i]).token_hash == fingerprint(bearer->0)
                    && ts[i].row.revoked_at is None;
            let who = standing(ts, root, bearer);
            &&& bare && !configured ==> who is Open
            &&& bare && configured ==> who is Refused
            &&& !bare && root == bearer ==> who is Root
            &&& !bare && root != bearer && !known ==> who is Refused
            &&& !bare && root != bearer && known ==> who is Token && exists|i: int|
                0 <= i < ts.len() && (#[trigger] ts[i]).row == who->row && ts[i].token_hash
                    == fingerprint(bearer->0) && who->row.revoked_at is None
        }),
{
    if bearer is Some && bearer->0.len() > 0 && root != bearer {
        lemma_token_with(ts, fingerprint(bearer->0));
        if let Some(row) = token_with(ts, fingerprint(bearer->0)) {
            let k = choose|k: int|
                0 <= k < ts.len() && (#[trigger] ts[k]).row == row && ts[k].token_hash
                    == fingerprint(bearer->0) && row.revoked_at is None && forall|i: int|
                    0 <= i < k ==> !((#[trigger] ts[i]).token_hash == fingerprint(bearer->0)
                        && ts[i].row.revoked_at is None);
            assert(ts[k].row == standing(ts, root, bearer)->row);
        }
    }
}

/// A token that was just made lets its holder in, with the role, the daily limit and the license
/// scope that it was made with.
pub proof fn law_new_token_lets_in(
    ts: Seq<StoredModel>,
    root: Option<Seq<char>>,
    name: Seq<char>,
    role: Role,
    limit: Option<i64>,
    license: Option<Seq<char>>,
    plain: Seq<char>,
    s: StampModel,
)
    requires
        plain.len() > 0,
        root != Some(plain),
        forall|i: int| 0 <= i < ts.len() ==> (#[trigger] ts[i]).token_hash != fingerprint(plain),
    ensures
        ({
            let after = ts.push(token_row(name, role, limit, license, plain, s));
            caller(after, root, Some(plain)) == Ok::<PrincipalModel, DenialModel>(
                PrincipalModel {
                    token_id: Some(s.id),
                    name,
                    role,
                    ask_daily_limit: limit,
                    license_filter: license,
                },
            )
        }),
{
    let row = token_row(name, role, limit, license, plain, s);
    let after = ts.push(row);
    lemma_token_with(after, fingerprint(plain));
    assert(after[ts.len() as int] == row);
    let found = token_with(after, fingerprint(plain))->0;
    let k = choose|k: int|
        0 <= k < after.len() && (#[trigger] after[k]).row == found && after[k].token_hash
            == fingerprint(plain) && found.revoked_at is None && forall|i: int|
            0 <= i < k ==> !((#[trigger] after[i]).token_hash == fingerprint(plain)
                && after[i].row.revoked_at is None);
    if k < ts.len() {
        assert(after[k] == ts[k]);
    }
    law_role_names_read_back(role);
}

/// Revocation takes away the validity of every valid token of that id or name and leaves the rest
/// as they are; it says how many it took.
pub proof fn law_revocation_is_exact(ts: Seq<StoredModel>, x: Seq<char>, now: Seq<char>)
    ensures
        ({
            let after = revoked(ts, x, now);
            &&& after.len() == ts.len()
            &&& forall|i: int|
                #![trigger after[i]]
                0 <= i < ts.len() ==> {
                    let meant = ts[i].row.id == x || ts[i].row.name == x;
                    &&& meant && ts[i].row.revoked_at is None ==> after[i].row.revoked_at == Some(
                        now,
                    )
                    &&& ts[i].row.revoked_at is Some || !meant ==> after[i] == ts[i]
                    &&& after[i].token_hash == ts[i].token_hash
                    &&& after[i].row == (TokenModel {
                        revoked_at: after[i].row.revoked_at,
                        ..ts[i].row
                    })
                }
            &&& revocable(ts, x) == valid_count(ts) - valid_count(after)
        }),
    decreases ts.len(),
{
    if ts.len() > 0 {
        law_revocation_is_exact(ts.drop_last(), x, now);
        assert(revoked(ts, x, now).drop_last() =~= revoked(ts.drop_last(), x, now));
    }
}

/// How many of the tokens are valid.
pub open spec fn valid_count(ts: Seq<StoredModel>) -> int
    decreases ts.len(),
{
    if ts.len() == 0 {
        0
    } else {
        valid_count(ts.drop_last()) + if ts.last().row.revoked_at is None {
            1int
        } else {
            0
        }
    }
}

/// What a request gets. One that the caller's role does not permit is refused. A question of a
/// caller with a daily limit is refused once the limit is spent, and otherwise counts one of that
/// day; what is left is the limit less those that were asked, this one included. All else is free.
pub proof fn law_questions_are_metered(
    st: StoreModel,
    root: Option<Seq<char>>,
    bearer: Option<Seq<char>>,
    action: Action,
    now: Seq<char>,
)
    ensures
        ({
            let who = caller(st.tokens, root, bearer);
            let (after, answer) = admission(st, root, bearer, action, now);
            let p = who->Ok_0;
            let metered = action == Action::Ask && p.token_id is Some && p.ask_daily_limit is Some;
            let (id, limit, day) = (p.token_id->0, p.ask_daily_limit->0, day_of(now));
            let spent = asks_of(st.usage, id, day);
            &&& who is Err ==> answer == Err::<(PrincipalModel, Option<i64>), DenialModel>(
                who->Err_0,
            ) && after.usage == st.usage
            &&& who is Ok && !permits(p.role, action) ==> answer == Err::<
                (PrincipalModel, Option<i64>),
                DenialModel,
            >(DenialModel::Forbidden) && after.usage == st.usage
            &&& who is Ok && permits(p.role, action) && !metered ==> answer == Ok::<
                (PrincipalModel, Option<i64>),
                DenialModel,
            >((p, None)) && after.usage == st.usage
            &&& who is Ok && permits(p.role, action) && metered && spent >= limit ==> answer
                == Err::<(PrincipalModel, Option<i64>), DenialModel>(
                DenialModel::QuotaSpent { limit, name: p.name },
            ) && after.usage == st.usage
            &&& who is Ok && permits(p.role, action) && metered && spent < limit ==> answer is Ok
                && answer->Ok_0.0 == p && answer->Ok_0.1 is Some && asks_of(after.usage, id, day)
                == spent + 1 && answer->Ok_0.1 == Some(
                (limit - asks_of(after.usage, id, day)) as i64,
            )
            &&& after.tokens.len() == st.tokens.len()
        }),
{
    let who = caller(st.tokens, root, bearer);
    if let Ok(p) = who {
        if let (Some(id), Some(limit)) = (p.token_id, p.ask_daily_limit) {
            let day = day_of(now);
            if asks_of(st.usage, id, day) < limit {
                law_quota_counts_exactly(st.usage, id, day, id, day, limit);
            }
        }
    }
}

/// A client sees clean sources only, unless its token says which; others see what their token says,
/// and everything without.
pub proof fn law_license_scope(p: PrincipalModel)
    ensures
        p.license_filter is Some ==> scope_of(p) == p.license_filter,
        p.license_filter is None && p.role == Role::Client ==> scope_of(p) == Some(
            "commercial_clean"@,
        ),
        p.license_filter is None && p.role != Role::Client ==> scope_of(p) is None,
{
}

/// A number that was asked for is brought within one and the largest that is allowed.
pub proof fn law_sizes_are_bounded(n: int, m: int, max: int)
    requires
        max >= 1,
    ensures
        1 <= within(n, max) <= max,
        1 <= n <= max ==> within(n, max) == n,
        n <= m ==> within(n, max) <= within(m, max),
{
}

// ---------------------------------------------------------------------------------------------
// Lists

/// The entities that are listed are those of the kind, only live ones where that is asked for, the
/// last seen first.
pub proof fn law_listed_entities(es: Seq<EntityModel>, live_only: bool, kind: Option<Seq<char>>)
    ensures
        ({
            let r = listed_entities(es, live_only, kind);
            &&& forall|p: int|
                0 <= p < es.len() ==> (#[trigger] r.contains(p) <==> (!live_only || es[p].is_live)
                    && (kind is None || es[p].entity_type == kind->0))
            &&& forall|i: int| 0 <= i < r.len() ==> 0 <= #[trigger] r[i] < es.len()
            &&& forall|i: int, j: int|
                0 <= i < j < r.len() ==> !before(
                    es[#[trigger] r[i]].last_seen,
                    es[#[trigger] r[j]].last_seen,
                )
        }),
{
    let n = es.len() as int;
    let fits = |i: int|
        (!live_only || es[i].is_live) && match kind {
            Some(t) => es[i].entity_type == t,
            None => true,
        };
    let at = places(n, fits);
    let keys = Seq::new(at.len(), |k: int| Some(es[at[k]].last_seen));
    let ranks = Seq::new(keys.len(), |i: int| smaller(keys, keys[i]));
    let order = descending(keys);
    let r = listed_entities(es, live_only, kind);
    lemma_places(n, fits);
    lemma_ranking(ranks);
    assert forall|p: int| 0 <= p < es.len() implies (#[trigger] r.contains(p) <==> (!live_only
        || es[p].is_live) && (kind is None || es[p].entity_type == kind->0)) by {
        if r.contains(p) {
            let k = choose|k: int| 0 <= k < r.len() && r[k] == p;
            assert(fits(at[order[k]]));
        }
        if fits(p) {
            let k = choose|k: int| 0 <= k < at.len() && at[k] == p;
            assert(order.contains(k));
            let m = choose|m: int| 0 <= m < order.len() && order[m] == k;
            assert(r[m] == p);
        }
    }
    assert forall|i: int, j: int| 0 <= i < j < r.len() implies !before(
        es[#[trigger] r[i]].last_seen,
        es[#[trigger] r[j]].last_seen,
    ) by {
        assert(crate::order::ranks_before(ranks, order[i], order[j]));
        let (a, b) = (keys[order[i]], keys[order[j]]);
        assert(keys.contains(a));
        lemma_smaller(keys, a, b);
    }
}

/// What is shown for a list: by its text where one is asked for, else as listed; no more than the
/// limit.
pub proof fn law_asked_entities(
    w: WorldModel,
    text: Option<Seq<char>>,
    live_only: bool,
    kind: Option<Seq<char>>,
    limit: i64,
)
    requires
        limit >= 0,
    ensures
        ({
            let r = asked_entities(w, text, live_only, kind, limit);
            let by_text = text is Some && crate::text::trim(text->0).len() > 0;
            &&& r.len() <= limit
            &&& by_text ==> forall|i: int|
                0 <= i < r.len() ==> #[trigger] r[i] == crate::block::candidates_of(w, text->0)[i]
            &&& !by_text ==> forall|i: int|
                0 <= i < r.len() ==> w.entities.contains(#[trigger] r[i]) && (!live_only
                    || r[i].is_live) && (kind is None || r[i].entity_type == kind->0)
        }),
{
    let at = listed_entities(w.entities, live_only, kind);
    let r = asked_entities(w, text, live_only, kind, limit);
    law_listed_entities(w.entities, live_only, kind);
    if !(text is Some && crate::text::trim(text->0).len() > 0) {
        assert forall|i: int| 0 <= i < r.len() implies w.entities.contains(#[trigger] r[i]) && (
        !live_only || r[i].is_live) && (kind is None || r[i].entity_type == kind->0) by {
            assert(r[i] == w.entities[at[i]]);
            assert(at.contains(at[i]));
        }
    }
}

/// The relations of an entity that are listed are those that it is an end of and that are in force,
/// in their order; without an entity, the typed ones that are valid, the heaviest first.
pub proof fn law_listed_relations(
    edges: Seq<EdgeModel>,
    id: Seq<char>,
    as_of: Option<Seq<char>>,
    p: int,
)
    requires
        0 <= p < edges.len(),
    ensures
        ({
            let e = edges[p];
            let mine = edges_of(edges, id, as_of);
            &&& mine.contains(p) <==> (e.from_id == id || e.to_id == id) && (if as_of is None {
                e.invalid_at is None
            } else {
                (e.valid_at is None || !before(as_of->0, e.valid_at->0)) && (e.invalid_at is None
                    || before(as_of->0, e.invalid_at->0))
            })
            &&& forall|i: int, j: int|
                0 <= i < j < mine.len() ==> #[trigger] mine[i] < #[trigger] mine[j]
            &&& heaviest(edges).contains(p) <==> e.invalid_at is None && e.edge_type
                != "mentioned_with"@
            &&& forall|i: int, j: int|
                0 <= i < j < heaviest(edges).len() ==> edges[#[trigger] heaviest(edges)[i]].weight
                    >= edges[#[trigger] heaviest(edges)[j]].weight
        }),
{
    let n = edges.len() as int;
    let fits = |i: int|
        crate::why::touches(edges[i], id) && crate::context::holds_at(
            edges[i],
            crate::context::as_asked(as_of),
        );
    lemma_places(n, fits);
    let mine = edges_of(edges, id, as_of);
    if mine.contains(p) {
        let k = choose|k: int| 0 <= k < mine.len() && mine[k] == p;
        assert(fits(mine[k]));
    }
    assert(fits(p) ==> mine.contains(p));
    let typed = |i: int| edges[i].invalid_at is None && edges[i].edge_type != "mentioned_with"@;
    let key = |i: int| edges[i].weight as int;
    let at = places(n, typed);
    lemma_ranked(n, typed, key);
    assert(Seq::new(at.len(), |k: int| key(at[k])) =~= Seq::new(
        at.len(),
        |k: int| edges[at[k]].weight as int,
    ));
    let h = heaviest(edges);
    assert(lists_highest_first(h, n, typed, key));
    if h.contains(p) {
        let k = choose|k: int| 0 <= k < h.len() && h[k] == p;
        assert(typed(h[k]));
    }
    assert(typed(p) ==> h.contains(p));
    assert forall|i: int, j: int| 0 <= i < j < h.len() implies edges[#[trigger] h[i]].weight
        >= edges[#[trigger] h[j]].weight by {
        assert(key(h[i]) >= key(h[j]));
    }
}

/// The mentions of a status that are listed are those that have it, the best score first and those
/// without a score last, no more than the limit.
pub proof fn law_listed_mentions(cs: Seq<CandidateModel>, status: Seq<char>, limit: i64, p: int)
    requires
        limit >= 0,
        0 <= p < cs.len(),
    ensures
        ({
            let r = asked_candidates(cs, status, limit);
            &&& r.len() <= limit
            &&& r.contains(p) ==> cs[p].status == status
            &&& cs[p].status == status && !r.contains(p) ==> r.len() == limit && forall|i: int|
                0 <= i < r.len() ==> scores_as_high(cs[#[trigger] r[i]], cs[p])
            &&& forall|i: int, j: int|
                0 <= i < j < r.len() ==> scores_as_high(cs[#[trigger] r[i]], cs[#[trigger] r[j]])
        }),
{
    let n = cs.len() as int;
    let fits = |i: int| cs[i].status == status;
    let key = |i: int| score_key(cs[i]);
    let at = places(n, fits);
    lemma_ranked(n, fits, key);
    assert(Seq::new(at.len(), |k: int| key(at[k])) =~= Seq::new(
        at.len(),
        |k: int| score_key(cs[at[k]]),
    ));
    let all = arranged(at, ranking(Seq::new(at.len(), |k: int| score_key(cs[at[k]]))));
    assert(lists_highest_first(all, n, fits, key));
    let r = asked_candidates(cs, status, limit);
    assert forall|i: int| 0 <= i < r.len() implies #[trigger] r[i] == all[i] by {}
    if r.contains(p) {
        let k = choose|k: int| 0 <= k < r.len() && r[k] == p;
        assert(fits(all[k]));
    }
    assert forall|i: int, j: int| 0 <= i < j < r.len() implies scores_as_high(
        cs[#[trigger] r[i]],
        cs[#[trigger] r[j]],
    ) by {
        assert(key(all[i]) >= key(all[j]));
    }
    if cs[p].status == status && !r.contains(p) {
        assert(fits(p));
        let k = choose|k: int| 0 <= k < all.len() && all[k] == p;
        if k < r.len() {
            assert(r[k] == p);
        }
        assert forall|i: int| 0 <= i < r.len() implies scores_as_high(
            cs[#[trigger] r[i]],
            cs[p],
        ) by {
            assert(key(all[i]) >= key(all[k]));
        }
    }
}

/// The score of one mention is not below that of another; none is below any.
pub open spec fn scores_as_high(a: CandidateModel, b: CandidateModel) -> bool {
    b.match_score is None || (a.match_score is Some && a.match_score->0 >= b.match_score->0)
}

/// What is listed of the relations: those of the entity where one is given, else the heaviest, in
/// that order, and no more than the limit.
pub proof fn law_asked_relations(
    edges: Seq<EdgeModel>,
    entity: Option<Seq<char>>,
    as_of: Option<Seq<char>>,
    limit: i64,
)
    requires
        limit >= 0,
    ensures
        ({
            let r = asked_edges(edges, entity, as_of, limit);
            let all = if entity is Some {
                edges_of(edges, entity->0, as_of)
            } else {
                heaviest(edges)
            };
            &&& r.len() == if limit < all.len() {
                limit as int
            } else {
                all.len() as int
            }
            &&& forall|i: int| 0 <= i < r.len() ==> #[trigger] r[i] == all[i]
        }),
{
}

/// The tokens are listed in the order in which they were made, each once.
pub proof fn law_tokens_by_creation(ts: Seq<StoredModel>, k: int)
    requires
        0 <= k < ts.len(),
    ensures
        crate::auth::by_creation(ts).len() == ts.len(),
        crate::auth::by_creation(ts).contains(ts[k].row),
        forall|i: int, j: int|
            0 <= i < j < ts.len() ==> !before(
                (#[trigger] crate::auth::by_creation(ts)[j]).created_at,
                (#[trigger] crate::auth::by_creation(ts)[i]).created_at,
            ),
{
    let keys = Seq::new(ts.len(), |i: int| Some(ts[i].row.created_at));
    let order = crate::order::ascending(keys);
    let r = crate::auth::by_creation(ts);
    crate::order::law_ascending_is_a_stable_sort(keys);
    assert(order.contains(k));
    let n = choose|n: int| 0 <= n < order.len() && order[n] == k;
    assert(r[n] == ts[k].row);
    assert forall|i: int, j: int| 0 <= i < j < ts.len() implies !before(
        (#[trigger] r[j]).created_at,
        (#[trigger] r[i]).created_at,
    ) by {
        assert(!opt_before(keys[order[j]], keys[order[i]]));
    }
}

/// The codes of refusals.
pub proof fn law_refusal_codes(limit: i64, name: Seq<char>, role: Seq<char>)
    ensures
        DenialModel::Unauthorized.code() == 401,
        DenialModel::Forbidden.code() == 403,
        (DenialModel::QuotaSpent { limit, name }).code() == 429,
        (DenialModel::UnknownRole { role }).code() == 500,
{
}

/// A token that lets its holder in was used now; no other token changes.
pub proof fn law_use_is_noted(
    st: StoreModel,
    root: Option<Seq<char>>,
    bearer: Option<Seq<char>>,
    action: Action,
    now: Seq<char>,
    i: int,
)
    requires
        0 <= i < st.tokens.len(),
    ensures
        ({
            let after = admission(st, root, bearer, action, now).0.tokens[i];
            let who = standing(st.tokens, root, bearer);
            let was = st.tokens[i];
            &&& who is Token && was.row.id == who->row.id ==> after.row.last_used_at == Some(now)
            &&& !(who is Token && was.row.id == who->row.id) ==> after == was
            &&& after.row.revoked_at == was.row.revoked_at
            &&& after.token_hash == was.token_hash
        }),
{
}

} // verus!
