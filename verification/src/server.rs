//! What the HTTP surface answers from: who may call, how much is listed, and which rows.

use vstd::prelude::*;
use vstd::string::*;

use crate::auth::{
    asked, asks_of, authenticate_at, charge_ask_at, day_of, standing, token_principal, unlimited,
    used, AuthError, Principal, PrincipalModel, Role, Standing, StoreModel, StoredModel, TokenStore,
};
use crate::block::{candidates_for, candidates_of};
use crate::context::{as_asked, held, holds_at, live, live_entities, moment_asked};
use crate::mission::{counted, current_edges, grouped, item_licenses, licenses, valid_edges};
use crate::models::{is_instant, rows, CandidateModel, EdgeModel, EntityModel, WmEdge, WmEntity};
use crate::order::{
    descending, ints, opt_views, positions, rank_descending, rank_texts_descending, ranking,
};
use crate::resolve::limited;
use crate::table::{arrange, arranged, marked_places, places};
use crate::text::{
    chars_of, integer_of, natural_of, opt_str, opt_view, quote, quoted, read_integer, read_natural,
    signed_decimal, signed_decimal_of, str_eq, string_from, trim, trimmed,
};
use crate::watch::{count_reviews, review_count};
use crate::why::{find_relations, relations_of, touches};
use crate::world::{World, WorldModel};

verus! {

// ---------------------------------------------------------------------------------------------
// Callers

/// The caller holds no valid token.
#[derive(Clone, Copy, Debug, PartialEq, Eq, Structural)]
pub struct Unauthorized;

impl Unauthorized {
    pub fn message(&self) -> (r: String)
        ensures
            r@ == "missing or invalid bearer token"@,
    {
        "missing or invalid bearer token".to_owned()
    }
}

/// The token that an authorization header carries.
pub open spec fn bearer_of(header: Option<Seq<char>>) -> Option<Seq<char>> {
    match header {
        Some(h) => if h.len() >= 7 && h.take(7) == "Bearer "@ {
            Some(h.skip(7))
        } else {
            None
        },
        None => None,
    }
}

pub fn bearer(header: Option<&str>) -> (r: Option<String>)
    ensures
        opt_view(r) == bearer_of(opt_str(header)),
{
    match header {
        Some(h) => {
            let cs = chars_of(h);
            if cs.len() < 7 {
                return None;
            }
            let scheme = string_from(&cs, 0, 7);
            assert(scheme@ =~= h@.take(7));
            if str_eq(scheme.as_str(), "Bearer ") {
                let token = string_from(&cs, 7, cs.len());
                assert(token@ =~= h@.skip(7));
                Some(token)
            } else {
                None
            }
        },
        None => None,
    }
}

/// Lets a caller through where no token is configured, or where the header carries it.
pub fn authorize(expected: Option<&str>, header: Option<&str>) -> (r: Result<(), Unauthorized>)
    ensures
        r is Ok <==> match opt_str(expected) {
            None => true,
            Some(t) => match bearer_of(opt_str(header)) {
                Some(got) => got == t,
                None => t.len() == 0,
            },
        },
{
    match expected {
        None => Ok(()),
        Some(t) => {
            let got = match bearer(header) {
                Some(g) => g,
                None => String::new(),
            };
            if str_eq(got.as_str(), t) {
                assert(got@ == t@);
                Ok(())
            } else {
                assert(got@.len() == 0 && t@.len() == 0 ==> got@ =~= t@);
                Err(Unauthorized)
            }
        },
    }
}

// ---------------------------------------------------------------------------------------------
// Requests that change the graph or spend model calls

/// What a caller asks for beyond reading.
#[derive(Clone, Copy, Debug, PartialEq, Eq, Structural)]
pub enum Action {
    Ask,
    Decide,
    Decorrelate,
}

/// Why a request is refused.
#[derive(Debug)]
pub enum Denial {
    /// The caller is not authenticated.
    Unauthorized,
    /// The caller's role may not do that.
    Forbidden,
    /// The day's quota of questions is spent.
    QuotaSpent { limit: i64, name: String },
    /// The stored role of the token is unknown.
    UnknownRole { role: String },
}

#[verifier::ext_equal]
pub enum DenialModel {
    Unauthorized,
    Forbidden,
    QuotaSpent { limit: i64, name: Seq<char> },
    UnknownRole { role: Seq<char> },
}

impl View for Denial {
    type V = DenialModel;

    open spec fn view(&self) -> DenialModel {
        match self {
            Denial::Unauthorized => DenialModel::Unauthorized,
            Denial::Forbidden => DenialModel::Forbidden,
            Denial::QuotaSpent { limit, name } => DenialModel::QuotaSpent {
                limit: *limit,
                name: name@,
            },
            Denial::UnknownRole { role } => DenialModel::UnknownRole { role: role@ },
        }
    }
}

impl DenialModel {
    /// The HTTP status of the refusal.
    pub open spec fn code(self) -> u16 {
        match self {
            DenialModel::Unauthorized => 401,
            DenialModel::Forbidden => 403,
            DenialModel::QuotaSpent { .. } => 429,
            DenialModel::UnknownRole { .. } => 500,
        }
    }

    /// What the caller is told.
    pub open spec fn text(self) -> Seq<char> {
        match self {
            DenialModel::Unauthorized => "missing or invalid bearer token"@,
            DenialModel::Forbidden => "this role may not do that"@,
            DenialModel::QuotaSpent { limit, name } => "daily ask quota of "@ + signed_decimal(
                limit as int,
            ) + " exhausted for "@ + name + "; resets at 00:00 UTC"@,
            DenialModel::UnknownRole { role } => "unknown role "@ + quoted(role)
                + "; expected operator | analyst | client"@,
        }
    }
}

impl Denial {
    /// The HTTP status of the refusal.
    pub fn code(&self) -> (r: u16)
        ensures
            r == self@.code(),
    {
        match self {
            Denial::Unauthorized => 401,
            Denial::Forbidden => 403,
            Denial::QuotaSpent { .. } => 429,
            Denial::UnknownRole { .. } => 500,
        }
    }

    /// What the caller is told.
    pub fn message(&self) -> (r: String)
        ensures
            r@ == self@.text(),
    {
        match self {
            Denial::Unauthorized => "missing or invalid bearer token".to_owned(),
            Denial::Forbidden => "this role may not do that".to_owned(),
            Denial::QuotaSpent { limit, name } => {
                let mut m = "daily ask quota of ".to_owned();
                m.append(signed_decimal_of(*limit).as_str());
                m.append(" exhausted for ");
                m.append(name.as_str());
                m.append("; resets at 00:00 UTC");
                m
            },
            Denial::UnknownRole { role } => {
                let mut m = "unknown role ".to_owned();
                m.append(quote(role.as_str()).as_str());
                m.append("; expected operator | analyst | client");
                m
            },
        }
    }
}

/// Whether a role may do something. Every caller may ask.
pub open spec fn permits(role: Role, action: Action) -> bool {
    match action {
        Action::Ask => true,
        Action::Decide => role.may_decide(),
        Action::Decorrelate => role.may_decorrelate(),
    }
}

fn permitted(role: Role, action: Action) -> (r: bool)
    ensures
        r == permits(role, action),
{
    match action {
        Action::Ask => true,
        Action::Decide => role.can_decide(),
        Action::Decorrelate => role.can_decorrelate(),
    }
}

/// Who is calling.
pub open spec fn caller(
    ts: Seq<StoredModel>,
    root_token: Option<Seq<char>>,
    bearer: Option<Seq<char>>,
) -> Result<PrincipalModel, DenialModel> {
    match standing(ts, root_token, bearer) {
        Standing::Open => Ok(unlimited("anonymous (no token configured)"@)),
        Standing::Root => Ok(unlimited("root"@)),
        Standing::Refused => Err(DenialModel::Unauthorized),
        Standing::Token { row } => match token_principal(row) {
            Some(p) => Ok(p),
            None => Err(DenialModel::UnknownRole { role: row.role }),
        },
    }
}

/// The store once a token was presented: a valid one is marked as used.
pub open spec fn presented(
    st: StoreModel,
    root_token: Option<Seq<char>>,
    bearer: Option<Seq<char>>,
    now: Seq<char>,
) -> StoreModel {
    match standing(st.tokens, root_token, bearer) {
        Standing::Token { row } => StoreModel { tokens: used(st.tokens, row.id, now), ..st },
        _ => st,
    }
}

/// The answer to a request: the caller and what is left of the day's quota, or the refusal; and
/// the store after it. Only a question counts against a quota.
pub open spec fn admission(
    st: StoreModel,
    root_token: Option<Seq<char>>,
    bearer: Option<Seq<char>>,
    action: Action,
    now: Seq<char>,
) -> (StoreModel, Result<(PrincipalModel, Option<i64>), DenialModel>) {
    let after = presented(st, root_token, bearer, now);
    match caller(st.tokens, root_token, bearer) {
        Err(d) => (after, Err(d)),
        Ok(p) => if !permits(p.role, action) {
            (after, Err(DenialModel::Forbidden))
        } else {
            match (p.token_id, p.ask_daily_limit) {
                (Some(id), Some(limit)) => if action == Action::Ask {
                    let day = day_of(now);
                    let spent = asks_of(after.usage, id, day);
                    if spent >= limit {
                        (after, Err(DenialModel::QuotaSpent { limit, name: p.name }))
                    } else {
                        (
                            StoreModel { usage: asked(after.usage, id, day), ..after },
                            Ok((p, Some((limit - spent - 1) as i64))),
                        )
                    }
                } else {
                    (after, Ok((p, None)))
                },
                _ => (after, Ok((p, None))),
            }
        },
    }
}

/// What a result of admission holds.
pub open spec fn granted(r: Result<(Principal, Option<i64>), Denial>) -> Result<
    (PrincipalModel, Option<i64>),
    DenialModel,
> {
    match r {
        Ok((p, left)) => Ok((p@, left)),
        Err(d) => Err(d@),
    }
}

/// Admits or refuses a request with an authorization header, at the time `now`.
pub fn receive_at(
    store: &mut TokenStore,
    root_token: Option<&str>,
    header: Option<&str>,
    action: Action,
    now: &str,
) -> (r: Result<(Principal, Option<i64>), Denial>)
    ensures
        (final(store)@, granted(r)) == admission(
            old(store)@,
            opt_str(root_token),
            bearer_of(opt_str(header)),
            action,
            now@,
        ),
{
    let token = bearer(header);
    let given = match &token {
        Some(t) => Some(t.as_str()),
        None => None,
    };
    assert(opt_str(given) == bearer_of(opt_str(header)));
    let principal = match authenticate_at(store, root_token, given, now) {
        Ok(Some(p)) => p,
        Ok(None) => {
            return Err(Denial::Unauthorized);
        },
        Err(AuthError::UnknownRole { role }) => {
            return Err(Denial::UnknownRole { role });
        },
        Err(AuthError::QuotaSpent { limit, name }) => {
            return Err(Denial::QuotaSpent { limit, name });
        },
    };
    if !permitted(principal.role, action) {
        return Err(Denial::Forbidden);
    }
    if action != Action::Ask {
        return Ok((principal, None));
    }
    match charge_ask_at(store, &principal, now) {
        Ok(left) => Ok((principal, left)),
        Err(AuthError::QuotaSpent { limit, name }) => Err(Denial::QuotaSpent { limit, name }),
        Err(AuthError::UnknownRole { role }) => Err(Denial::UnknownRole { role }),
    }
}

/// Admits or refuses a request with an authorization header.
pub fn receive(
    store: &mut TokenStore,
    root_token: Option<&str>,
    header: Option<&str>,
    action: Action,
) -> (r: Result<(Principal, Option<i64>), Denial>)
    ensures
        exists|now: Seq<char>|
            is_instant(now) && (final(store)@, granted(r)) == #[trigger] admission(
                old(store)@,
                opt_str(root_token),
                bearer_of(opt_str(header)),
                action,
                now,
            ),
{
    let t = crate::models::now();
    let ghost before = store@;
    let r = receive_at(store, root_token, header, action, t.as_str());
    assert((store@, granted(r)) == admission(
        before,
        opt_str(root_token),
        bearer_of(opt_str(header)),
        action,
        t@,
    ));
    r
}

/// A refused request costs no question, and a client's token is good for questions alone.
pub proof fn law_refusal_costs_nothing(
    st: StoreModel,
    root_token: Option<Seq<char>>,
    bearer: Option<Seq<char>>,
    action: Action,
    now: Seq<char>,
)
    ensures
        ({
            let (after, answer) = admission(st, root_token, bearer, action, now);
            &&& answer is Err ==> after.usage == st.usage
            &&& action != Action::Ask ==> after.usage == st.usage
            &&& (caller(st.tokens, root_token, bearer) matches Ok(p) && p.role == Role::Client
                && action != Action::Ask) ==> answer == Err::<
                (PrincipalModel, Option<i64>),
                DenialModel,
            >(DenialModel::Forbidden)
        }),
{
}

/// The license class that a caller's answers keep to: that of the token, and for a client without
/// one the class that is clean for commercial use.
pub open spec fn scope_of(p: PrincipalModel) -> Option<Seq<char>> {
    match p.license_filter {
        Some(class) => Some(class),
        None => if p.role == Role::Client {
            Some("commercial_clean"@)
        } else {
            None
        },
    }
}

pub fn license_scope(p: &Principal) -> (r: Option<String>)
    ensures
        opt_view(r) == scope_of(p@),
{
    match &p.license_filter {
        Some(class) => Some(class.clone()),
        None => if p.role == Role::Client {
            Some("commercial_clean".to_owned())
        } else {
            None
        },
    }
}

// ---------------------------------------------------------------------------------------------
// Limits

/// A number between 1 and `max`.
pub open spec fn within(n: int, max: int) -> int {
    if n < 1 {
        1
    } else if n > max {
        max
    } else {
        n
    }
}

/// How many rows are asked for: what the query says, else a default, within bounds.
pub fn limit_of(asked: Option<&str>, default: i64, max: i64) -> (r: i64)
    requires
        max >= 1,
    ensures
        r == within(
            match opt_str(asked) {
                Some(s) => match integer_of(s) {
                    Some(n) => n as int,
                    None => default as int,
                },
                None => default as int,
            },
            max as int,
        ),
        1 <= r <= max,
{
    let n: i64 = match asked {
        Some(s) => match read_integer(s) {
            Some(n) => n,
            None => default,
        },
        None => default,
    };
    if n < 1 {
        1
    } else if n > max {
        max
    } else {
        n
    }
}

/// How many objects are asked for, where the number cannot be negative.
pub fn size_of(asked: Option<&str>, default: u64, max: u64) -> (r: u64)
    requires
        max >= 1,
    ensures
        r == within(
            match opt_str(asked) {
                Some(s) => match natural_of(s) {
                    Some(n) => n as int,
                    None => default as int,
                },
                None => default as int,
            },
            max as int,
        ),
        1 <= r <= max,
{
    let n: u64 = match asked {
        Some(s) => match read_natural(s) {
            Some(n) => n,
            None => default,
        },
        None => default,
    };
    if n < 1 {
        1
    } else if n > max {
        max
    } else {
        n
    }
}

/// What is held of a group for so many seconds is too old, or of another group.
pub fn is_stale(held: &str, asked: &str, age: u64, lifetime: u64) -> (r: bool)
    ensures
        r == (held@ != asked@ || age > lifetime),
{
    !str_eq(held, asked) || age > lifetime
}

// ---------------------------------------------------------------------------------------------
// Entities

/// The positions of the entities of a type, or of any, live ones only unless all are asked for, the
/// last seen first.
pub open spec fn listed_entities(
    es: Seq<EntityModel>,
    live_only: bool,
    kind: Option<Seq<char>>,
) -> Seq<int> {
    let at = places(
        es.len() as int,
        |i: int|
            (!live_only || es[i].is_live) && match kind {
                Some(t) => es[i].entity_type == t,
                None => true,
            },
    );
    arranged(at, descending(Seq::new(at.len(), |k: int| Some(es[at[k]].last_seen))))
}

/// The entities that a query asks for: those that a text may stand for, or the last seen ones.
pub open spec fn asked_entities(
    w: WorldModel,
    text: Option<Seq<char>>,
    live_only: bool,
    kind: Option<Seq<char>>,
    limit: i64,
) -> Seq<EntityModel> {
    match text {
        Some(q) if trim(q).len() > 0 => limited(candidates_of(w, q), limit),
        _ => {
            let at = limited(listed_entities(w.entities, live_only, kind), limit);
            Seq::new(at.len(), |k: int| w.entities[at[k]])
        },
    }
}

fn list_entities(es: &Vec<WmEntity>, live_only: bool, kind: Option<&str>) -> (r: Vec<usize>)
    ensures
        positions(r@) == listed_entities(rows(es@), live_only, opt_str(kind)),
        forall|k: int| 0 <= k < r@.len() ==> #[trigger] r@[k] < es@.len(),
{
    let ghost all = rows(es@);
    let ghost kv = opt_str(kind);
    let ghost fits = |i: int|
        (!live_only || all[i].is_live) && match kv {
            Some(t) => all[i].entity_type == t,
            None => true,
        };
    let mut marks: Vec<bool> = Vec::new();
    let mut i: usize = 0;
    while i < es.len()
        invariant
            i <= es@.len(),
            all == rows(es@),
            kv == opt_str(kind),
            fits == (|i: int|
                (!live_only || all[i].is_live) && match kv {
                    Some(t) => all[i].entity_type == t,
                    None => true,
                }),
            marks@.len() == i,
            forall|j: int| 0 <= j < i ==> #[trigger] marks@[j] == fits(j),
        decreases es.len() - i,
    {
        let e = &es[i];
        assert(all[i as int] == e@);
        let of_kind = match kind {
            Some(t) => str_eq(e.entity_type.as_str(), t),
            None => true,
        };
        marks.push((!live_only || e.is_live) && of_kind);
        i += 1;
    }
    let at = marked_places(&marks, Ghost(fits));
    let ghost av = positions(at@);
    let mut keys: Vec<Option<String>> = Vec::new();
    let mut k: usize = 0;
    while k < at.len()
        invariant
            k <= at@.len(),
            all == rows(es@),
            av == positions(at@),
            forall|j: int| 0 <= j < at@.len() ==> #[trigger] at@[j] < es@.len(),
            keys@.len() == k,
            forall|j: int|
                0 <= j < k ==> opt_view(#[trigger] keys@[j]) == Some(all[av[j]].last_seen),
        decreases at.len() - k,
    {
        assert(av[k as int] == at@[k as int]);
        keys.push(Some(es[at[k]].last_seen.clone()));
        k += 1;
    }
    assert(opt_views(keys@) =~= Seq::new(av.len(), |k: int| Some(all[av[k]].last_seen)));
    let order = rank_texts_descending(&keys);
    let r = arrange(&at, &order);
    proof {
        assert forall|k: int| 0 <= k < r@.len() implies (#[trigger] r@[k]) < es@.len() by {
            assert(at@.contains(r@[k]));
        }
    }
    r
}

fn first_places(at: Vec<usize>, limit: i64) -> (r: Vec<usize>)
    ensures
        positions(r@) == limited(positions(at@), limit),
        forall|k: int| 0 <= k < r@.len() ==> #[trigger] r@[k] == at@[k],
        r@.len() <= at@.len(),
{
    let ghost full = positions(at@);
    let mut r = at;
    if limit >= 0 && (limit as u64) < (r.len() as u64) {
        r.truncate(limit as usize);
        assert(positions(r@) =~= full.take(limit as int));
    }
    r
}

/// The entities that a query asks for.
pub fn entities(
    world: &World,
    text: Option<&str>,
    live_only: bool,
    kind: Option<&str>,
    limit: i64,
) -> (r: Vec<WmEntity>)
    ensures
        rows(r@) == asked_entities(world@, opt_str(text), live_only, opt_str(kind), limit),
{
    if let Some(q) = text {
        if !trimmed(q).as_str().is_empty() {
            let mut cands = candidates_for(world, q);
            let ghost all = rows(cands@);
            assert(all.len() == cands@.len());
            if limit >= 0 && (limit as u64) < (cands.len() as u64) {
                cands.truncate(limit as usize);
                assert(rows(cands@) =~= all.take(limit as int));
            }
            return cands;
        }
    }
    let at = first_places(list_entities(&world.entities, live_only, kind), limit);
    let ghost w = world@;
    let ghost av = positions(at@);
    let ghost goal = Seq::new(av.len(), |k: int| w.entities[av[k]]);
    let mut out: Vec<WmEntity> = Vec::new();
    let mut k: usize = 0;
    while k < at.len()
        invariant
            k <= at@.len(),
            w == world@,
            av == positions(at@),
            forall|j: int| 0 <= j < at@.len() ==> #[trigger] at@[j] < world.entities@.len(),
            goal == Seq::new(av.len(), |k: int| w.entities[av[k]]),
            out@.len() == k,
            forall|j: int| 0 <= j < k ==> (#[trigger] out@[j])@ == goal[j],
        decreases at.len() - k,
    {
        assert(av[k as int] == at@[k as int]);
        out.push(world.entities[at[k]].dup());
        k += 1;
    }
    assert(rows(out@) =~= goal);
    out
}

// ---------------------------------------------------------------------------------------------
// Relations

/// How many relations are shown with an entity.
pub const ENTITY_EDGES: i64 = 200;

fn edges_at_places(edges: &Vec<WmEdge>, at: &Vec<usize>) -> (r: Vec<WmEdge>)
    requires
        forall|k: int| 0 <= k < at@.len() ==> #[trigger] at@[k] < edges@.len(),
    ensures
        rows(r@) == Seq::new(
            positions(at@).len(),
            |k: int| rows(edges@)[positions(at@)[k]],
        ),
{
    let ghost av = positions(at@);
    let ghost goal = Seq::new(av.len(), |k: int| rows(edges@)[av[k]]);
    let mut out: Vec<WmEdge> = Vec::new();
    let mut k: usize = 0;
    while k < at.len()
        invariant
            k <= at@.len(),
            av == positions(at@),
            forall|j: int| 0 <= j < at@.len() ==> #[trigger] at@[j] < edges@.len(),
            goal == Seq::new(av.len(), |k: int| rows(edges@)[av[k]]),
            out@.len() == k,
            forall|j: int| 0 <= j < k ==> (#[trigger] out@[j])@ == goal[j],
        decreases at.len() - k,
    {
        assert(av[k as int] == at@[k as int]);
        out.push(edges[at[k]].dup());
        k += 1;
    }
    assert(rows(out@) =~= goal);
    out
}

/// The valid relations that are shown with an entity, typed and heavy ones first.
pub fn entity_edges(world: &World, id: &str) -> (r: Vec<WmEdge>)
    ensures
        ({
            let at = limited(relations_of(world@.edges, id@, true), ENTITY_EDGES);
            rows(r@) == Seq::new(at.len(), |k: int| world@.edges[at[k]])
        }),
        r@.len() <= 200,
{
    let at = first_places(find_relations(&world.edges, id, true), ENTITY_EDGES);
    let r = edges_at_places(&world.edges, &at);
    assert(rows(r@).len() == r@.len());
    r
}

/// The positions of the relations of an entity: the valid ones, or those that held at a time.
pub open spec fn edges_of(
    edges: Seq<EdgeModel>,
    id: Seq<char>,
    as_of: Option<Seq<char>>,
) -> Seq<int> {
    places(
        edges.len() as int,
        |i: int|
            touches(edges[i], id) && holds_at(edges[i], as_asked(as_of)),
    )
}

/// The positions of the valid typed relations, heaviest first.
pub open spec fn heaviest(edges: Seq<EdgeModel>) -> Seq<int> {
    let at = places(
        edges.len() as int,
        |i: int| edges[i].invalid_at is None && edges[i].edge_type != "mentioned_with"@,
    );
    arranged(at, ranking(Seq::new(at.len(), |k: int| edges[at[k]].weight as int)))
}

/// The positions of the relations that a query asks for.
pub open spec fn asked_edges(
    edges: Seq<EdgeModel>,
    entity: Option<Seq<char>>,
    as_of: Option<Seq<char>>,
    limit: i64,
) -> Seq<int> {
    match entity {
        Some(id) => limited(edges_of(edges, id, as_of), limit),
        None => limited(heaviest(edges), limit),
    }
}

fn find_edges_of(edges: &Vec<WmEdge>, id: &str, as_of: Option<&str>) -> (r: Vec<usize>)
    ensures
        positions(r@) == edges_of(rows(edges@), id@, opt_str(as_of)),
        forall|k: int| 0 <= k < r@.len() ==> #[trigger] r@[k] < edges@.len(),
{
    let ghost all = rows(edges@);
    let moment = moment_asked(as_of);
    let ghost fits = |i: int|
        touches(all[i], id@) && holds_at(all[i], as_asked(opt_str(as_of)));
    let mut marks: Vec<bool> = Vec::new();
    let mut i: usize = 0;
    while i < edges.len()
        invariant
            i <= edges@.len(),
            all == rows(edges@),
            moment@ == as_asked(opt_str(as_of)),
            fits == (|i: int|
                touches(all[i], id@) && holds_at(all[i], as_asked(opt_str(as_of)))),
            marks@.len() == i,
            forall|j: int| 0 <= j < i ==> #[trigger] marks@[j] == fits(j),
        decreases edges.len() - i,
    {
        let e = &edges[i];
        assert(all[i as int] == e@);
        marks.push(
            (str_eq(e.from_id.as_str(), id) || str_eq(e.to_id.as_str(), id)) && held(e, moment),
        );
        i += 1;
    }
    marked_places(&marks, Ghost(fits))
}

fn find_heaviest(edges: &Vec<WmEdge>) -> (r: Vec<usize>)
    ensures
        positions(r@) == heaviest(rows(edges@)),
        forall|k: int| 0 <= k < r@.len() ==> #[trigger] r@[k] < edges@.len(),
{
    let ghost all = rows(edges@);
    let ghost fits = |i: int|
        all[i].invalid_at is None && all[i].edge_type != "mentioned_with"@;
    let mut marks: Vec<bool> = Vec::new();
    let mut i: usize = 0;
    while i < edges.len()
        invariant
            i <= edges@.len(),
            all == rows(edges@),
            fits == (|i: int|
                all[i].invalid_at is None && all[i].edge_type != "mentioned_with"@),
            marks@.len() == i,
            forall|j: int| 0 <= j < i ==> #[trigger] marks@[j] == fits(j),
        decreases edges.len() - i,
    {
        let e = &edges[i];
        assert(all[i as int] == e@);
        marks.push(e.invalid_at.is_none() && !str_eq(e.edge_type.as_str(), "mentioned_with"));
        i += 1;
    }
    let at = marked_places(&marks, Ghost(fits));
    let ghost av = positions(at@);
    let mut keys: Vec<i128> = Vec::new();
    let mut k: usize = 0;
    while k < at.len()
        invariant
            k <= at@.len(),
            all == rows(edges@),
            av == positions(at@),
            forall|j: int| 0 <= j < at@.len() ==> #[trigger] at@[j] < edges@.len(),
            keys@.len() == k,
            forall|j: int| 0 <= j < k ==> #[trigger] keys@[j] == all[av[j]].weight as int,
        decreases at.len() - k,
    {
        assert(av[k as int] == at@[k as int]);
        keys.push(edges[at[k]].weight as i128);
        k += 1;
    }
    assert(ints(keys@) =~= Seq::new(av.len(), |k: int| all[av[k]].weight as int));
    let order = rank_descending(&keys);
    let r = arrange(&at, &order);
    proof {
        assert forall|k: int| 0 <= k < r@.len() implies (#[trigger] r@[k]) < edges@.len() by {
            assert(at@.contains(r@[k]));
        }
    }
    r
}

/// The relations that a query asks for.
pub fn edges(world: &World, entity: Option<&str>, as_of: Option<&str>, limit: i64) -> (r: Vec<
    WmEdge,
>)
    ensures
        ({
            let at = asked_edges(world@.edges, opt_str(entity), opt_str(as_of), limit);
            rows(r@) == Seq::new(at.len(), |k: int| world@.edges[at[k]])
        }),
{
    let at = match entity {
        Some(id) => find_edges_of(&world.edges, id, as_of),
        None => find_heaviest(&world.edges),
    };
    let first = first_places(at, limit);
    edges_at_places(&world.edges, &first)
}

// ---------------------------------------------------------------------------------------------
// Candidates

/// The place of a score among scores; a mention without one comes last.
pub open spec fn score_key(c: CandidateModel) -> int {
    match c.match_score {
        Some(n) => n as int,
        None => -0x1_0000_0000_0000_0000,
    }
}

/// The positions of the candidates of a status, best score first, at most so many.
pub open spec fn asked_candidates(cs: Seq<CandidateModel>, status: Seq<char>, limit: i64) -> Seq<
    int,
> {
    let at = places(cs.len() as int, |i: int| cs[i].status == status);
    limited(
        arranged(at, ranking(Seq::new(at.len(), |k: int| score_key(cs[at[k]])))),
        limit,
    )
}

/// The positions of the candidates that a query asks for.
pub fn candidates(world: &World, status: &str, limit: i64) -> (r: Vec<usize>)
    ensures
        positions(r@) == asked_candidates(world@.candidates, status@, limit),
        forall|k: int| 0 <= k < r@.len() ==> #[trigger] r@[k] < world.candidates@.len(),
{
    let ghost all = world@.candidates;
    let ghost fits = |i: int| all[i].status == status@;
    let mut marks: Vec<bool> = Vec::new();
    let mut i: usize = 0;
    while i < world.candidates.len()
        invariant
            i <= world.candidates@.len(),
            all == rows(world.candidates@),
            fits == (|i: int| all[i].status == status@),
            marks@.len() == i,
            forall|j: int| 0 <= j < i ==> #[trigger] marks@[j] == fits(j),
        decreases world.candidates.len() - i,
    {
        assert(all[i as int] == world.candidates@[i as int]@);
        marks.push(str_eq(world.candidates[i].status.as_str(), status));
        i += 1;
    }
    let at = marked_places(&marks, Ghost(fits));
    let ghost av = positions(at@);
    let mut keys: Vec<i128> = Vec::new();
    let mut k: usize = 0;
    while k < at.len()
        invariant
            k <= at@.len(),
            all == rows(world.candidates@),
            av == positions(at@),
            forall|j: int| 0 <= j < at@.len() ==> #[trigger] at@[j] < world.candidates@.len(),
            keys@.len() == k,
            forall|j: int| 0 <= j < k ==> #[trigger] keys@[j] == score_key(all[av[j]]),
        decreases at.len() - k,
    {
        assert(av[k as int] == at@[k as int]);
        let c = &world.candidates[at[k]];
        assert(all[av[k as int]] == c@);
        match c.match_score {
            Some(n) => {
                keys.push(n as i128);
            },
            None => {
                keys.push(-0x1_0000_0000_0000_0000);
            },
        }
        k += 1;
    }
    assert(ints(keys@) =~= Seq::new(av.len(), |k: int| score_key(all[av[k]])));
    let order = rank_descending(&keys);
    let full = arrange(&at, &order);
    proof {
        assert forall|k: int| 0 <= k < full@.len() implies (#[trigger] full@[k])
            < world.candidates@.len() by {
            assert(at@.contains(full@[k]));
        }
    }
    let r = first_places(full, limit);
    proof {
        assert forall|k: int| 0 <= k < r@.len() implies (#[trigger] r@[k])
            < world.candidates@.len() by {
            assert(r@[k] == full@[k]);
        }
    }
    r
}

// ---------------------------------------------------------------------------------------------
// Status

/// What is stored.
#[derive(Debug)]
pub struct Status {
    pub entities: usize,
    pub live_entities: usize,
    pub valid_edges: usize,
    pub pending_review: usize,
    pub source_items: usize,
    pub geocoded: usize,
    pub sources_by_license: Vec<(String, usize)>,
}

/// Counts what is stored.
pub fn status(world: &World) -> (r: Status)
    ensures
        r.entities == world@.entities.len(),
        r.live_entities == live(world@.entities).len(),
        r.valid_edges == valid_edges(world@.edges).len(),
        r.pending_review == review_count(world@.candidates),
        r.source_items == world@.source_items.len(),
        r.geocoded == world@.geo.len(),
        counted(r.sources_by_license@) == grouped(item_licenses(world@)),
{
    let es = live_entities(world);
    let vs = current_edges(world);
    assert(rows(es@).len() == es@.len());
    assert(rows(vs@).len() == vs@.len());
    Status {
        entities: world.entities.len(),
        live_entities: es.len(),
        valid_edges: vs.len(),
        pending_review: count_reviews(world),
        source_items: world.source_items.len(),
        geocoded: world.geo.len(),
        sources_by_license: licenses(world),
    }
}

} // verus!
