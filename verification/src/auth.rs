//! Scoped API tokens. Three roles, deliberately few:
//!
//! - `operator`: everything. Decisions, decorrelation, unlimited asks, every source.
//! - `analyst`: decisions and asks; no decorrelation (that is an operator's call).
//! - `client`: asks only, usually with a daily quota and a `commercial_clean` license filter, so
//!   that a paying tenant is never handed non-commercial data by accident.
//!
//! A configured root token is the root operator's. With no root token and no stored tokens the
//! API is open on whatever it is bound to.

use vstd::prelude::*;
use vstd::string::*;
use vstd::utf8::*;

use crate::hash::{fingerprint, fingerprint_of, is_hex};
use crate::models::{is_instant, rows};
use crate::order::{ascending, opt_views, positions, rank_ascending};
use crate::text::{
    head, head_of, opt_copy, opt_owned, opt_str, opt_view, quote, quoted, signed_decimal,
    signed_decimal_of, str_eq,
};
use crate::world::{is_stamp, stamp, Stamp, StampModel};

verus! {

/// What a caller may do.
#[derive(Clone, Copy, Debug, PartialEq, Eq, Structural)]
pub enum Role {
    Operator,
    Analyst,
    Client,
}

/// Why a caller is refused.
#[derive(Debug)]
pub enum AuthError {
    UnknownRole { role: String },
    /// The day's quota is spent.
    QuotaSpent { limit: i64, name: String },
}

impl AuthError {
    pub open spec fn text(self) -> Seq<char> {
        match self {
            AuthError::UnknownRole { role } => "unknown role "@ + quoted(role@)
                + "; expected operator | analyst | client"@,
            AuthError::QuotaSpent { limit, name } => "daily ask quota of "@ + signed_decimal(
                limit as int,
            ) + " exhausted for "@ + name@ + "; resets at 00:00 UTC"@,
        }
    }

    pub fn message(&self) -> (r: String)
        ensures
            r@ == self.text(),
    {
        match self {
            AuthError::UnknownRole { role } => {
                let mut m = "unknown role ".to_owned();
                m.append(quote(role.as_str()).as_str());
                m.append("; expected operator | analyst | client");
                m
            },
            AuthError::QuotaSpent { limit, name } => {
                let mut m = "daily ask quota of ".to_owned();
                m.append(signed_decimal_of(*limit).as_str());
                m.append(" exhausted for ");
                m.append(name.as_str());
                m.append("; resets at 00:00 UTC");
                m
            },
        }
    }
}

/// The name of a role.
pub open spec fn role_name(role: Role) -> Seq<char> {
    match role {
        Role::Operator => "operator"@,
        Role::Analyst => "analyst"@,
        Role::Client => "client"@,
    }
}

/// The role with the given name.
pub open spec fn role_of(name: Seq<char>) -> Option<Role> {
    if name == "operator"@ {
        Some(Role::Operator)
    } else if name == "analyst"@ {
        Some(Role::Analyst)
    } else if name == "client"@ {
        Some(Role::Client)
    } else {
        None
    }
}

impl Role {
    pub fn parse(s: &str) -> (r: Result<Role, AuthError>)
        ensures
            match role_of(s@) {
                Some(role) => r == Ok::<Role, AuthError>(role),
                None => r matches Err(AuthError::UnknownRole { role }) && role@ == s@,
            },
    {
        if str_eq(s, "operator") {
            Ok(Role::Operator)
        } else if str_eq(s, "analyst") {
            Ok(Role::Analyst)
        } else if str_eq(s, "client") {
            Ok(Role::Client)
        } else {
            Err(AuthError::UnknownRole { role: s.to_owned() })
        }
    }

    pub fn as_str(self) -> (r: &'static str)
        ensures
            r@ == role_name(self),
    {
        match self {
            Role::Operator => "operator",
            Role::Analyst => "analyst",
            Role::Client => "client",
        }
    }

    /// Operators and analysts record decisions.
    pub open spec fn may_decide(self) -> bool {
        self == Role::Operator || self == Role::Analyst
    }

    /// Only operators declare entities distinct.
    pub open spec fn may_decorrelate(self) -> bool {
        self == Role::Operator
    }

    pub fn can_decide(self) -> (r: bool)
        ensures
            r == self.may_decide(),
    {
        match self {
            Role::Operator => true,
            Role::Analyst => true,
            Role::Client => false,
        }
    }

    pub fn can_decorrelate(self) -> (r: bool)
        ensures
            r == self.may_decorrelate(),
    {
        match self {
            Role::Operator => true,
            Role::Analyst => false,
            Role::Client => false,
        }
    }
}

/// The name of a role reads back as the role.
pub proof fn law_role_names_read_back(role: Role)
    ensures
        role_of(role_name(role)) == Some(role),
{
    reveal_strlit("operator");
    reveal_strlit("analyst");
    reveal_strlit("client");
    assert("operator"@.len() == 8);
    assert("analyst"@.len() == 7);
    assert("client"@.len() == 6);
}

/// Who may decorrelate may also decide, and a client may do neither.
pub proof fn law_roles_are_ordered(role: Role)
    ensures
        role.may_decorrelate() ==> role.may_decide(),
        !Role::Client.may_decide() && !Role::Client.may_decorrelate(),
{
}

/// An authenticated caller.
#[derive(Debug)]
pub struct Principal {
    /// `None` for the root token and for the open (no-token) mode.
    pub token_id: Option<String>,
    pub name: String,
    pub role: Role,
    pub ask_daily_limit: Option<i64>,
    pub license_filter: Option<String>,
}

#[verifier::ext_equal]
pub struct PrincipalModel {
    pub token_id: Option<Seq<char>>,
    pub name: Seq<char>,
    pub role: Role,
    pub ask_daily_limit: Option<i64>,
    pub license_filter: Option<Seq<char>>,
}

impl View for Principal {
    type V = PrincipalModel;

    open spec fn view(&self) -> PrincipalModel {
        PrincipalModel {
            token_id: opt_view(self.token_id),
            name: self.name@,
            role: self.role,
            ask_daily_limit: self.ask_daily_limit,
            license_filter: opt_view(self.license_filter),
        }
    }
}

/// An operator without limits, under the given name.
pub open spec fn unlimited(name: Seq<char>) -> PrincipalModel {
    PrincipalModel {
        token_id: None,
        name,
        role: Role::Operator,
        ask_daily_limit: None,
        license_filter: None,
    }
}

impl Principal {
    pub fn root() -> (r: Principal)
        ensures
            r@ == unlimited("root"@),
    {
        Principal {
            token_id: None,
            name: "root".to_owned(),
            role: Role::Operator,
            ask_daily_limit: None,
            license_filter: None,
        }
    }

    pub fn open() -> (r: Principal)
        ensures
            r@ == unlimited("anonymous (no token configured)"@),
    {
        let mut p = Principal::root();
        p.name = "anonymous (no token configured)".to_owned();
        p
    }
}

/// A token as it is listed: without its hash.
#[derive(Debug)]
pub struct TokenRow {
    pub id: String,
    pub name: String,
    pub role: String,
    pub ask_daily_limit: Option<i64>,
    pub license_filter: Option<String>,
    pub created_at: String,
    pub revoked_at: Option<String>,
    pub last_used_at: Option<String>,
}

#[verifier::ext_equal]
pub struct TokenModel {
    pub id: Seq<char>,
    pub name: Seq<char>,
    pub role: Seq<char>,
    pub ask_daily_limit: Option<i64>,
    pub license_filter: Option<Seq<char>>,
    pub created_at: Seq<char>,
    pub revoked_at: Option<Seq<char>>,
    pub last_used_at: Option<Seq<char>>,
}

impl View for TokenRow {
    type V = TokenModel;

    open spec fn view(&self) -> TokenModel {
        TokenModel {
            id: self.id@,
            name: self.name@,
            role: self.role@,
            ask_daily_limit: self.ask_daily_limit,
            license_filter: opt_view(self.license_filter),
            created_at: self.created_at@,
            revoked_at: opt_view(self.revoked_at),
            last_used_at: opt_view(self.last_used_at),
        }
    }
}

impl TokenRow {
    pub fn dup(&self) -> (r: TokenRow)
        ensures
            r == *self,
    {
        TokenRow {
            id: self.id.clone(),
            name: self.name.clone(),
            role: self.role.clone(),
            ask_daily_limit: self.ask_daily_limit,
            license_filter: opt_copy(&self.license_filter),
            created_at: self.created_at.clone(),
            revoked_at: opt_copy(&self.revoked_at),
            last_used_at: opt_copy(&self.last_used_at),
        }
    }
}

/// A stored token: the row and the fingerprint of the plaintext, which is not stored.
#[derive(Debug)]
pub struct StoredToken {
    pub row: TokenRow,
    pub token_hash: String,
}

#[verifier::ext_equal]
pub struct StoredModel {
    pub row: TokenModel,
    pub token_hash: Seq<char>,
}

impl View for StoredToken {
    type V = StoredModel;

    open spec fn view(&self) -> StoredModel {
        StoredModel { row: self.row@, token_hash: self.token_hash@ }
    }
}

/// How many questions a token has asked on a day.
#[derive(Debug)]
pub struct Usage {
    pub token_id: String,
    pub day: String,
    pub asks: u64,
}

#[verifier::ext_equal]
pub struct UsageModel {
    pub token_id: Seq<char>,
    pub day: Seq<char>,
    pub asks: u64,
}

impl View for Usage {
    type V = UsageModel;

    open spec fn view(&self) -> UsageModel {
        UsageModel { token_id: self.token_id@, day: self.day@, asks: self.asks }
    }
}

/// The tokens and their use.
#[derive(Debug)]
pub struct TokenStore {
    pub tokens: Vec<StoredToken>,
    pub usage: Vec<Usage>,
}

#[verifier::ext_equal]
pub struct StoreModel {
    pub tokens: Seq<StoredModel>,
    pub usage: Seq<UsageModel>,
}

impl View for TokenStore {
    type V = StoreModel;

    open spec fn view(&self) -> StoreModel {
        StoreModel { tokens: rows(self.tokens@), usage: rows(self.usage@) }
    }
}

impl TokenStore {
    pub fn new() -> (r: TokenStore)
        ensures
            r@.tokens == Seq::<StoredModel>::empty(),
            r@.usage == Seq::<UsageModel>::empty(),
    {
        let s = TokenStore { tokens: Vec::new(), usage: Vec::new() };
        assert(s@.tokens =~= Seq::<StoredModel>::empty());
        assert(s@.usage =~= Seq::<UsageModel>::empty());
        s
    }
}

pub fn hash_token(plain: &str) -> (r: String)
    ensures
        r@ == fingerprint(plain@),
        r@.len() == 64,
{
    fingerprint_of(plain)
}

/// The characters are hexadecimal digits.
pub open spec fn all_hex(digits: Seq<char>) -> bool {
    forall|i: int| 0 <= i < digits.len() ==> is_hex(#[trigger] digits[i])
}

/// `uuid::Uuid::new_v4` in its simple form: 32 random hexadecimal digits.
#[verifier::external_body]
fn random_digits() -> (r: String)
    ensures
        r@.len() == 32,
        all_hex(r@),
{
    uuid::Uuid::new_v4().simple().to_string()
}

/// A token is the prefix, which makes leaks greppable, and random digits.
pub open spec fn token_form(plain: Seq<char>) -> bool {
    exists|digits: Seq<char>|
        digits.len() == 32 && all_hex(digits) && plain == #[trigger] ("enk_"@ + digits)
}

pub fn generate_plaintext() -> (r: String)
    ensures
        token_form(r@),
{
    let mut p = "enk_".to_owned();
    let digits = random_digits();
    p.append(digits.as_str());
    assert(p@ == "enk_"@ + digits@);
    p
}

/// The row of a new token.
pub open spec fn token_row(
    name: Seq<char>,
    role: Role,
    ask_daily_limit: Option<i64>,
    license_filter: Option<Seq<char>>,
    plain: Seq<char>,
    s: StampModel,
) -> StoredModel {
    StoredModel {
        row: TokenModel {
            id: s.id,
            name,
            role: role_name(role),
            ask_daily_limit,
            license_filter,
            created_at: s.now,
            revoked_at: None,
            last_used_at: None,
        },
        token_hash: fingerprint(plain),
    }
}

/// Stores a token with the given plaintext under the given stamp.
pub fn create_token_as(
    store: &mut TokenStore,
    name: &str,
    role: Role,
    ask_daily_limit: Option<i64>,
    license_filter: Option<&str>,
    plain: &str,
    s: &Stamp,
)
    ensures
        final(store)@ == (StoreModel {
            tokens: old(store)@.tokens.push(
                token_row(name@, role, ask_daily_limit, opt_str(license_filter), plain@, s@),
            ),
            ..old(store)@
        }),
{
    let row = StoredToken {
        row: TokenRow {
            id: s.id.clone(),
            name: name.to_owned(),
            role: role.as_str().to_owned(),
            ask_daily_limit,
            license_filter: opt_owned(license_filter),
            created_at: s.now.clone(),
            revoked_at: None,
            last_used_at: None,
        },
        token_hash: hash_token(plain),
    };
    let ghost rv = row@;
    store.tokens.push(row);
    assert(rows(store.tokens@) =~= old(store)@.tokens.push(rv));
}

/// Creates a token and returns its id and its plaintext. The plaintext is not stored.
pub fn create_token(
    store: &mut TokenStore,
    name: &str,
    role: Role,
    ask_daily_limit: Option<i64>,
    license_filter: Option<&str>,
) -> (r: (String, String))
    ensures
        token_form(r.1@),
        exists|s: StampModel|
            is_stamp(s) && s.id == r.0@ && final(store)@ == (StoreModel {
                tokens: old(store)@.tokens.push(
                    #[trigger] token_row(
                        name@,
                        role,
                        ask_daily_limit,
                        opt_str(license_filter),
                        r.1@,
                        s,
                    ),
                ),
                ..old(store)@
            }),
{
    let plain = generate_plaintext();
    let s = stamp();
    create_token_as(store, name, role, ask_daily_limit, license_filter, plain.as_str(), &s);
    assert(store@.tokens == old(store)@.tokens.push(
        token_row(name@, role, ask_daily_limit, opt_str(license_filter), plain@, s@),
    ));
    (s.id, plain)
}

/// The rows in the order of their creation.
pub open spec fn by_creation(ts: Seq<StoredModel>) -> Seq<TokenModel> {
    let order = ascending(Seq::new(ts.len(), |i: int| Some(ts[i].row.created_at)));
    Seq::new(ts.len(), |i: int| ts[order[i]].row)
}

pub fn list_tokens(store: &TokenStore) -> (r: Vec<TokenRow>)
    ensures
        rows(r@) == by_creation(store@.tokens),
{
    let ghost ts = store@.tokens;
    let mut keys: Vec<Option<String>> = Vec::new();
    let mut i: usize = 0;
    while i < store.tokens.len()
        invariant
            i <= store.tokens@.len(),
            ts == rows(store.tokens@),
            keys@.len() == i,
            forall|j: int|
                0 <= j < i ==> opt_view(#[trigger] keys@[j]) == Some(ts[j].row.created_at),
        decreases store.tokens.len() - i,
    {
        keys.push(Some(store.tokens[i].row.created_at.clone()));
        i += 1;
    }
    assert(opt_views(keys@) =~= Seq::new(ts.len(), |i: int| Some(ts[i].row.created_at)));
    let order = rank_ascending(&keys);
    let ghost goal = by_creation(ts);
    let mut out: Vec<TokenRow> = Vec::new();
    let mut n: usize = 0;
    while n < order.len()
        invariant
            n <= order@.len(),
            order@.len() == store.tokens@.len(),
            ts == rows(store.tokens@),
            goal == by_creation(ts),
            positions(order@) == ascending(Seq::new(ts.len(), |i: int| Some(ts[i].row.created_at))),
            forall|i: int| 0 <= i < order@.len() ==> #[trigger] order@[i] < store.tokens@.len(),
            rows(out@) == goal.take(n as int),
        decreases order.len() - n,
    {
        assert(order@[n as int] < store.tokens@.len());
        let ghost done = rows(out@);
        assert(goal[n as int] == ts[positions(order@)[n as int]].row);
        out.push(store.tokens[order[n]].row.dup());
        assert(rows(out@) =~= done.push(goal[n as int]));
        assert(goal.take(n + 1) =~= done.push(goal[n as int]));
        n += 1;
    }
    assert(goal.take(n as int) =~= goal);
    out
}

/// The token is valid and goes by the given id or name.
pub open spec fn goes_by(t: StoredModel, id_or_name: Seq<char>) -> bool {
    t.row.revoked_at is None && (t.row.id == id_or_name || t.row.name == id_or_name)
}

/// The tokens with those of the given id or name revoked.
pub open spec fn revoked(ts: Seq<StoredModel>, id_or_name: Seq<char>, now: Seq<char>) -> Seq<
    StoredModel,
> {
    Seq::new(
        ts.len(),
        |i: int|
            if goes_by(ts[i], id_or_name) {
                StoredModel {
                    row: TokenModel { revoked_at: Some(now), ..ts[i].row },
                    ..ts[i]
                }
            } else {
                ts[i]
            },
    )
}

pub open spec fn revocable(ts: Seq<StoredModel>, id_or_name: Seq<char>) -> int
    decreases ts.len(),
{
    if ts.len() == 0 {
        0
    } else {
        revocable(ts.drop_last(), id_or_name) + if goes_by(ts.last(), id_or_name) {
            1int
        } else {
            0
        }
    }
}

/// Revokes the valid tokens with the given id or name at the time `now`; returns how many.
pub fn revoke_token_at(store: &mut TokenStore, id_or_name: &str, now: &str) -> (r: u64)
    ensures
        final(store)@ == (StoreModel {
            tokens: revoked(old(store)@.tokens, id_or_name@, now@),
            ..old(store)@
        }),
        r == revocable(old(store)@.tokens, id_or_name@),
{
    let ghost s0 = store@;
    let ghost goal = revoked(s0.tokens, id_or_name@, now@);
    let mut n: u64 = 0;
    let mut i: usize = 0;
    assert(s0.tokens.take(0) =~= seq![]);
    while i < store.tokens.len()
        invariant
            i <= store.tokens@.len(),
            store.tokens@.len() == s0.tokens.len(),
            goal == revoked(s0.tokens, id_or_name@, now@),
            n <= i,
            n == revocable(s0.tokens.take(i as int), id_or_name@),
            store@ == (StoreModel { tokens: rows(store.tokens@), ..s0 }),
            forall|j: int| 0 <= j < i ==> (#[trigger] rows(store.tokens@)[j]) == goal[j],
            forall|j: int|
                i <= j < s0.tokens.len() ==> (#[trigger] rows(store.tokens@)[j]) == s0.tokens[j],
        decreases store.tokens.len() - i,
    {
        let ghost cur = rows(store.tokens@);
        assert(s0.tokens.take(i + 1).drop_last() =~= s0.tokens.take(i as int));
        assert(cur[i as int] == s0.tokens[i as int]);
        if store.tokens[i].row.revoked_at.is_none() && (str_eq(
            store.tokens[i].row.id.as_str(),
            id_or_name,
        ) || str_eq(store.tokens[i].row.name.as_str(), id_or_name)) {
            store.tokens[i].row.revoked_at = Some(now.to_owned());
            n += 1;
        }
        assert forall|j: int| 0 <= j < cur.len() && j != i implies (#[trigger] rows(
            store.tokens@,
        )[j]) == cur[j] by {}
        assert(rows(store.tokens@)[i as int] == goal[i as int]);
        i += 1;
    }
    assert(s0.tokens.take(i as int) =~= s0.tokens);
    assert(rows(store.tokens@) =~= goal);
    n
}

/// Revokes the valid tokens with the given id or name; returns how many.
pub fn revoke_token(store: &mut TokenStore, id_or_name: &str) -> (r: u64)
    ensures
        exists|now: Seq<char>|
            is_instant(now) && final(store)@ == (StoreModel {
                tokens: #[trigger] revoked(old(store)@.tokens, id_or_name@, now),
                ..old(store)@
            }),
        r == revocable(old(store)@.tokens, id_or_name@),
{
    let t = crate::models::now();
    revoke_token_at(store, id_or_name, t.as_str())
}

/// A token that is not revoked is stored.
pub open spec fn some_valid(ts: Seq<StoredModel>) -> bool {
    exists|i: int| 0 <= i < ts.len() && (#[trigger] ts[i]).row.revoked_at is None
}

pub fn any_tokens(store: &TokenStore) -> (r: bool)
    ensures
        r == some_valid(store@.tokens),
{
    let ghost ts = store@.tokens;
    let mut i: usize = 0;
    while i < store.tokens.len()
        invariant
            i <= store.tokens@.len(),
            ts == rows(store.tokens@),
            forall|j: int| 0 <= j < i ==> (#[trigger] ts[j]).row.revoked_at is Some,
        decreases store.tokens.len() - i,
    {
        if store.tokens[i].row.revoked_at.is_none() {
            assert(ts[i as int].row.revoked_at is None);
            return true;
        }
        i += 1;
    }
    false
}

/// The first valid token with the given fingerprint.
pub open spec fn token_with(ts: Seq<StoredModel>, hash: Seq<char>) -> Option<TokenModel>
    decreases ts.len(),
{
    if ts.len() == 0 {
        None
    } else if ts[0].token_hash == hash && ts[0].row.revoked_at is None {
        Some(ts[0].row)
    } else {
        token_with(ts.drop_first(), hash)
    }
}

fn find_token(ts: &Vec<StoredToken>, hash: &str) -> (r: Option<TokenRow>)
    ensures
        match r {
            Some(row) => token_with(rows(ts@), hash@) == Some(row@),
            None => token_with(rows(ts@), hash@) is None,
        },
{
    let ghost all = rows(ts@);
    let mut i: usize = 0;
    assert(all.skip(0) =~= all);
    while i < ts.len()
        invariant
            i <= ts@.len(),
            all == rows(ts@),
            token_with(all, hash@) == token_with(all.skip(i as int), hash@),
        decreases ts.len() - i,
    {
        assert(all.skip(i as int)[0] == ts@[i as int]@);
        assert(all.skip(i as int).drop_first() =~= all.skip(i + 1));
        if str_eq(ts[i].token_hash.as_str(), hash) && ts[i].row.revoked_at.is_none() {
            return Some(ts[i].row.dup());
        }
        i += 1;
    }
    None
}

/// The tokens with the time of the last use of one of them.
pub open spec fn used(ts: Seq<StoredModel>, id: Seq<char>, now: Seq<char>) -> Seq<StoredModel> {
    Seq::new(
        ts.len(),
        |i: int|
            if ts[i].row.id == id {
                StoredModel {
                    row: TokenModel { last_used_at: Some(now), ..ts[i].row },
                    ..ts[i]
                }
            } else {
                ts[i]
            },
    )
}

fn mark_used(store: &mut TokenStore, id: &str, now: &str)
    ensures
        final(store)@ == (StoreModel { tokens: used(old(store)@.tokens, id@, now@), ..old(store)@ }),
{
    let ghost s0 = store@;
    let ghost goal = used(s0.tokens, id@, now@);
    let mut i: usize = 0;
    while i < store.tokens.len()
        invariant
            i <= store.tokens@.len(),
            store.tokens@.len() == s0.tokens.len(),
            goal == used(s0.tokens, id@, now@),
            store@ == (StoreModel { tokens: rows(store.tokens@), ..s0 }),
            forall|j: int| 0 <= j < i ==> (#[trigger] rows(store.tokens@)[j]) == goal[j],
            forall|j: int|
                i <= j < s0.tokens.len() ==> (#[trigger] rows(store.tokens@)[j]) == s0.tokens[j],
        decreases store.tokens.len() - i,
    {
        let ghost cur = rows(store.tokens@);
        assert(cur[i as int] == s0.tokens[i as int]);
        if str_eq(store.tokens[i].row.id.as_str(), id) {
            store.tokens[i].row.last_used_at = Some(now.to_owned());
        }
        assert forall|j: int| 0 <= j < cur.len() && j != i implies (#[trigger] rows(
            store.tokens@,
        )[j]) == cur[j] by {}
        assert(rows(store.tokens@)[i as int] == goal[i as int]);
        i += 1;
    }
    assert(rows(store.tokens@) =~= goal);
}

/// What a bearer value amounts to.
pub enum Standing {
    /// Nothing at all is configured, and nothing was presented.
    Open,
    Root,
    /// A stored token.
    Token { row: TokenModel },
    Refused,
}

/// What a caller without a bearer value amounts to.
pub open spec fn bare_standing(ts: Seq<StoredModel>, root_token: Option<Seq<char>>) -> Standing {
    if root_token is None && !some_valid(ts) {
        Standing::Open
    } else {
        Standing::Refused
    }
}

/// What a bearer value amounts to. Without one the API is open only when nothing at all is
/// configured; the root token is the root operator's; any other value must be that of a stored
/// token that is not revoked.
pub open spec fn standing(
    ts: Seq<StoredModel>,
    root_token: Option<Seq<char>>,
    bearer: Option<Seq<char>>,
) -> Standing {
    match bearer {
        Some(b) => if b.len() == 0 {
            bare_standing(ts, root_token)
        } else if root_token == Some(b) {
            Standing::Root
        } else {
            match token_with(ts, fingerprint(b)) {
                Some(row) => Standing::Token { row },
                None => Standing::Refused,
            }
        },
        None => bare_standing(ts, root_token),
    }
}

/// The caller that a stored token stands for, where its role is known.
pub open spec fn token_principal(row: TokenModel) -> Option<PrincipalModel> {
    match role_of(row.role) {
        Some(role) => Some(
            PrincipalModel {
                token_id: Some(row.id),
                name: row.name,
                role,
                ask_daily_limit: row.ask_daily_limit,
                license_filter: row.license_filter,
            },
        ),
        None => None,
    }
}

/// What a result of authentication holds.
pub open spec fn authenticated(r: Result<Option<Principal>, AuthError>) -> Option<PrincipalModel> {
    match r {
        Ok(Some(p)) => Some(p@),
        _ => None,
    }
}

/// Resolves a bearer value to a caller at the time `now`. `Ok(None)` means "not authenticated".
pub fn authenticate_at(
    store: &mut TokenStore,
    root_token: Option<&str>,
    bearer: Option<&str>,
    now: &str,
) -> (r: Result<Option<Principal>, AuthError>)
    ensures
        match standing(old(store)@.tokens, opt_str(root_token), opt_str(bearer)) {
            Standing::Open => final(store)@ == old(store)@ && authenticated(r) == Some(
                unlimited("anonymous (no token configured)"@),
            ),
            Standing::Root => final(store)@ == old(store)@ && authenticated(r) == Some(
                unlimited("root"@),
            ),
            Standing::Refused => final(store)@ == old(store)@ && r == Ok::<
                Option<Principal>,
                AuthError,
            >(None),
            Standing::Token { row } => final(store)@ == (StoreModel {
                tokens: used(old(store)@.tokens, row.id, now@),
                ..old(store)@
            }) && match token_principal(row) {
                Some(p) => authenticated(r) == Some(p),
                None => r matches Err(AuthError::UnknownRole { role }) && role@ == row.role,
            },
        },
{
    let presented = match bearer {
        Some(b) => if b.is_empty() {
            None
        } else {
            Some(b)
        },
        None => None,
    };
    match presented {
        None => {
            if root_token.is_none() && !any_tokens(store) {
                Ok(Some(Principal::open()))
            } else {
                Ok(None)
            }
        },
        Some(b) => {
            if let Some(root) = root_token {
                if str_eq(b, root) {
                    return Ok(Some(Principal::root()));
                }
            }
            let hash = hash_token(b);
            match find_token(&store.tokens, hash.as_str()) {
                None => Ok(None),
                Some(row) => {
                    mark_used(store, row.id.as_str(), now);
                    match Role::parse(row.role.as_str()) {
                        Ok(role) => Ok(
                            Some(
                                Principal {
                                    token_id: Some(row.id),
                                    name: row.name,
                                    role,
                                    ask_daily_limit: row.ask_daily_limit,
                                    license_filter: row.license_filter,
                                },
                            ),
                        ),
                        Err(e) => Err(e),
                    }
                },
            }
        },
    }
}

/// Resolves a bearer value to a caller. `Ok(None)` means "not authenticated".
pub fn authenticate(store: &mut TokenStore, root_token: Option<&str>, bearer: Option<&str>) -> (r:
    Result<Option<Principal>, AuthError>)
    ensures
        match standing(old(store)@.tokens, opt_str(root_token), opt_str(bearer)) {
            Standing::Open => authenticated(r) == Some(
                unlimited("anonymous (no token configured)"@),
            ),
            Standing::Root => authenticated(r) == Some(unlimited("root"@)),
            Standing::Refused => r == Ok::<Option<Principal>, AuthError>(None),
            Standing::Token { row } => match token_principal(row) {
                Some(p) => authenticated(r) == Some(p),
                None => r matches Err(AuthError::UnknownRole { role }) && role@ == row.role,
            },
        },
        match standing(old(store)@.tokens, opt_str(root_token), opt_str(bearer)) {
            Standing::Token { row } => exists|now: Seq<char>|
                is_instant(now) && final(store)@ == (StoreModel {
                    tokens: #[trigger] used(old(store)@.tokens, row.id, now),
                    ..old(store)@
                }),
            _ => final(store)@ == old(store)@,
        },
{
    let t = crate::models::now();
    authenticate_at(store, root_token, bearer, t.as_str())
}

/// A revoked token authenticates nobody: once all tokens of a name are revoked, what is
/// presented is refused unless it is the root token or that of another valid token.
pub proof fn law_revoked_is_refused(
    ts: Seq<StoredModel>,
    id_or_name: Seq<char>,
    now: Seq<char>,
    bearer: Seq<char>,
    root_token: Option<Seq<char>>,
)
    requires
        bearer.len() > 0,
        root_token != Some(bearer),
        forall|i: int|
            0 <= i < ts.len() && (#[trigger] ts[i]).token_hash == fingerprint(bearer) ==> ts[i].row.id
                == id_or_name || ts[i].row.name == id_or_name,
    ensures
        standing(revoked(ts, id_or_name, now), root_token, Some(bearer)) is Refused,
{
    lemma_no_token(revoked(ts, id_or_name, now), fingerprint(bearer));
}

proof fn lemma_no_token(ts: Seq<StoredModel>, hash: Seq<char>)
    requires
        forall|i: int|
            0 <= i < ts.len() && (#[trigger] ts[i]).token_hash == hash ==> ts[i].row.revoked_at
                is Some,
    ensures
        token_with(ts, hash) is None,
    decreases ts.len(),
{
    if ts.len() > 0 {
        let rest = ts.drop_first();
        assert forall|i: int|
            0 <= i < rest.len() && (#[trigger] rest[i]).token_hash
                == hash implies rest[i].row.revoked_at is Some by {
            assert(rest[i] == ts[i + 1]);
        }
        lemma_no_token(rest, hash);
    }
}

/// The API is open to callers without a token only when nothing is configured.
pub proof fn law_open_only_when_unconfigured(
    ts: Seq<StoredModel>,
    root_token: Option<Seq<char>>,
    bearer: Option<Seq<char>>,
)
    ensures
        standing(ts, root_token, bearer) is Open ==> root_token is None && !some_valid(ts),
{
}

// ---------------------------------------------------------------------------------------------
// Quotas

/// The day of a time: its first ten bytes.
pub open spec fn day_of(now: Seq<char>) -> Seq<char> {
    match head(now, 10) {
        Some(d) => d,
        None => seq![],
    }
}

/// The position of the use of a token on a day, the number of rows where it has none.
pub open spec fn usage_at(us: Seq<UsageModel>, token_id: Seq<char>, day: Seq<char>) -> int
    decreases us.len(),
{
    if us.len() == 0 {
        0
    } else if us[0].token_id == token_id && us[0].day == day {
        0
    } else {
        1 + usage_at(us.drop_first(), token_id, day)
    }
}

/// How many questions the token has asked on the day.
pub open spec fn asks_of(us: Seq<UsageModel>, token_id: Seq<char>, day: Seq<char>) -> int {
    let i = usage_at(us, token_id, day);
    if 0 <= i < us.len() {
        us[i].asks as int
    } else {
        0
    }
}

/// The use with one more question.
pub open spec fn asked(us: Seq<UsageModel>, token_id: Seq<char>, day: Seq<char>) -> Seq<UsageModel> {
    let i = usage_at(us, token_id, day);
    if 0 <= i < us.len() {
        us.update(i, UsageModel { asks: (us[i].asks + 1) as u64, ..us[i] })
    } else {
        us.push(UsageModel { token_id, day, asks: 1 })
    }
}

fn find_usage(us: &Vec<Usage>, token_id: &str, day: &str) -> (r: usize)
    ensures
        r == usage_at(rows(us@), token_id@, day@),
        r <= us@.len(),
{
    let ghost all = rows(us@);
    let mut i: usize = 0;
    assert(all.skip(0) =~= all);
    while i < us.len()
        invariant
            i <= us@.len(),
            all == rows(us@),
            usage_at(all, token_id@, day@) == i + usage_at(all.skip(i as int), token_id@, day@),
        decreases us.len() - i,
    {
        assert(all.skip(i as int)[0] == us@[i as int]@);
        assert(all.skip(i as int).drop_first() =~= all.skip(i + 1));
        if str_eq(us[i].token_id.as_str(), token_id) && str_eq(us[i].day.as_str(), day) {
            return i;
        }
        i += 1;
    }
    i
}

/// Counts one question against the caller's daily quota at the time `now`. Returns what is left
/// of it after this call (`None` means unlimited), or an error if the quota is already spent.
pub fn charge_ask_at(store: &mut TokenStore, principal: &Principal, now: &str) -> (r: Result<
    Option<i64>,
    AuthError,
>)
    ensures
        match (principal@.token_id, principal@.ask_daily_limit) {
            (Some(id), Some(limit)) => {
                let day = day_of(now@);
                let spent = asks_of(old(store)@.usage, id, day);
                if spent >= limit {
                    &&& final(store)@ == old(store)@
                    &&& r matches Err(AuthError::QuotaSpent { limit: l, name })
                    &&& l == limit
                    &&& name@ == principal@.name
                } else {
                    &&& r == Ok::<Option<i64>, AuthError>(Some((limit - spent - 1) as i64))
                    &&& final(store)@ == (StoreModel {
                        usage: asked(old(store)@.usage, id, day),
                        ..old(store)@
                    })
                }
            },
            _ => r == Ok::<Option<i64>, AuthError>(None) && final(store)@ == old(store)@,
        },
{
    let (token_id, limit) = match (&principal.token_id, principal.ask_daily_limit) {
        (Some(id), Some(limit)) => (id.clone(), limit),
        _ => {
            return Ok(None);
        },
    };
    let day = match head_of(now, 10) {
        Some(d) => d,
        None => {
            let d = String::new();
            assert(d@ =~= Seq::<char>::empty());
            d
        },
    };
    let ghost us = store@.usage;
    assert(us.len() == store.usage@.len());
    let at = find_usage(&store.usage, token_id.as_str(), day.as_str());
    let spent: u64 = if at < store.usage.len() {
        store.usage[at].asks
    } else {
        0
    };
    assert(spent == asks_of(us, token_id@, day@));
    if limit <= 0 || spent >= limit as u64 {
        return Err(AuthError::QuotaSpent { limit, name: principal.name.clone() });
    }
    if at < store.usage.len() {
        store.usage[at].asks = spent + 1;
        assert(rows(store.usage@) =~= asked(us, token_id@, day@));
    } else {
        let row = Usage { token_id, day, asks: 1 };
        let ghost rv = row@;
        store.usage.push(row);
        assert(rows(store.usage@) =~= us.push(rv));
    }
    Ok(Some(limit - spent as i64 - 1))
}

/// Counts one question against the caller's daily quota.
pub fn charge_ask(store: &mut TokenStore, principal: &Principal) -> (r: Result<
    Option<i64>,
    AuthError,
>)
    ensures
        match (principal@.token_id, principal@.ask_daily_limit) {
            (Some(id), Some(limit)) => exists|now: Seq<char>|
                is_instant(now) && {
                    let day = #[trigger] day_of(now);
                    let spent = asks_of(old(store)@.usage, id, day);
                    if spent >= limit {
                        &&& final(store)@ == old(store)@
                        &&& r matches Err(AuthError::QuotaSpent { limit: l, name })
                        &&& l == limit
                        &&& name@ == principal@.name
                    } else {
                        &&& r == Ok::<Option<i64>, AuthError>(Some((limit - spent - 1) as i64))
                        &&& final(store)@ == (StoreModel {
                            usage: asked(old(store)@.usage, id, day),
                            ..old(store)@
                        })
                    }
                },
            _ => r == Ok::<Option<i64>, AuthError>(None) && final(store)@ == old(store)@,
        },
{
    let t = crate::models::now();
    let r = charge_ask_at(store, principal, t.as_str());
    assert(day_of(t@) == day_of(t@));
    r
}

proof fn lemma_usage_at(us: Seq<UsageModel>, token_id: Seq<char>, day: Seq<char>)
    ensures
        0 <= usage_at(us, token_id, day) <= us.len(),
        usage_at(us, token_id, day) < us.len() ==> us[usage_at(us, token_id, day)].token_id
            == token_id && us[usage_at(us, token_id, day)].day == day,
        forall|i: int|
            0 <= i < usage_at(us, token_id, day) ==> !((#[trigger] us[i]).token_id == token_id
                && us[i].day == day),
    decreases us.len(),
{
    if us.len() > 0 && !(us[0].token_id == token_id && us[0].day == day) {
        let rest = us.drop_first();
        lemma_usage_at(rest, token_id, day);
        let n = usage_at(rest, token_id, day);
        if n < rest.len() {
            assert(rest[n] == us[n + 1]);
        }
        assert forall|i: int| 0 <= i < n + 1 implies !((#[trigger] us[i]).token_id == token_id
            && us[i].day == day) by {
            if i > 0 {
                assert(rest[i - 1] == us[i]);
            }
        }
    }
}

proof fn lemma_usage_found(us: Seq<UsageModel>, token_id: Seq<char>, day: Seq<char>, n: int)
    requires
        0 <= n <= us.len(),
        n < us.len() ==> us[n].token_id == token_id && us[n].day == day,
        forall|i: int|
            0 <= i < n ==> !((#[trigger] us[i]).token_id == token_id && us[i].day == day),
    ensures
        usage_at(us, token_id, day) == n,
    decreases us.len(),
{
    if us.len() > 0 && n > 0 {
        let rest = us.drop_first();
        assert(!(us[0].token_id == token_id && us[0].day == day));
        assert forall|i: int| 0 <= i < n - 1 implies !((#[trigger] rest[i]).token_id == token_id
            && rest[i].day == day) by {
            assert(rest[i] == us[i + 1]);
        }
        if n < us.len() {
            assert(rest[n - 1] == us[n]);
        }
        lemma_usage_found(rest, token_id, day, n - 1);
    }
}

/// A question counts once, for its token and its day alone: so a token whose quota is not spent
/// has asked no more than its quota allows after the question.
pub proof fn law_quota_counts_exactly(
    us: Seq<UsageModel>,
    token_id: Seq<char>,
    day: Seq<char>,
    other: Seq<char>,
    other_day: Seq<char>,
    limit: i64,
)
    requires
        asks_of(us, token_id, day) < limit,
    ensures
        asks_of(asked(us, token_id, day), token_id, day) == asks_of(us, token_id, day) + 1,
        asks_of(asked(us, token_id, day), token_id, day) <= limit,
        (other, other_day) != (token_id, day) ==> asks_of(
            asked(us, token_id, day),
            other,
            other_day,
        ) == asks_of(us, other, other_day),
{
    let after = asked(us, token_id, day);
    let n = usage_at(us, token_id, day);
    lemma_usage_at(us, token_id, day);
    assert forall|i: int| 0 <= i < n implies !((#[trigger] after[i]).token_id == token_id
        && after[i].day == day) by {
        assert(after[i] == us[i]);
    }
    lemma_usage_found(after, token_id, day, n);
    if (other, other_day) != (token_id, day) {
        let m = usage_at(us, other, other_day);
        lemma_usage_at(us, other, other_day);
        assert forall|i: int| 0 <= i < m implies !((#[trigger] after[i]).token_id == other
            && after[i].day == other_day) by {
            assert(us[i].token_id == after[i].token_id);
        }
        if m < us.len() {
            lemma_usage_found(after, other, other_day, m);
        } else {
            assert forall|i: int| 0 <= i < after.len() implies !((#[trigger] after[i]).token_id
                == other && after[i].day == other_day) by {
                if i < us.len() {
                    assert(us[i].token_id == after[i].token_id);
                }
            }
            lemma_usage_found(after, other, other_day, after.len() as int);
        }
    }
}

} // verus!
