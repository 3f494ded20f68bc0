//! The settings of the language model behind enrichment and `ask`, and what is read out of its
//! replies. Local-first by default: the reasoning tier must not require a cloud account.
//!
//! Provider selection:
//! - `openai`: any OpenAI-compatible chat endpoint (Ollama, vLLM, LM Studio, OpenAI).
//! - `anthropic`: the Anthropic Messages API; a key is required.
//!
//! If unset: a configured base URL implies `openai`; otherwise an Anthropic key implies
//! `anthropic`; otherwise `openai` against a local Ollama.

use vstd::prelude::*;
use vstd::string::*;

use crate::json::{field_list, field_str, item_at, items_in, text_in, Json};
use crate::text::{
    chars_of, opt_owned, opt_str, opt_view, quote, quoted, str_eq, string_of, sub_chars,
};

verus! {

pub const ANTHROPIC_URL: &'static str = "https://api.anthropic.com/v1/messages";

pub const ANTHROPIC_VERSION: &'static str = "2023-06-01";

pub const DEFAULT_OPENAI_BASE: &'static str = "http://localhost:11434";

pub const DEFAULT_OPENAI_MODEL: &'static str = "qwen2.5:7b";

/// Whose protocol the model speaks.
#[derive(Clone, Copy, Debug, PartialEq, Eq, Structural)]
pub enum Provider {
    OpenAiCompat,
    Anthropic,
}

/// Why the model cannot be used.
#[derive(Debug)]
pub enum LlmError {
    UnknownProvider { name: String },
    /// The Anthropic API needs a key.
    MissingKey,
    /// The reply does not hold an answer where one belongs.
    NoAnswer { provider: Provider },
}

impl LlmError {
    pub open spec fn text(self) -> Seq<char> {
        match self {
            LlmError::UnknownProvider { name } => "unknown ENARGEIA_LLM_PROVIDER "@ + quoted(name@)
                + " (expected openai|anthropic)"@,
            LlmError::MissingKey => "ANTHROPIC_API_KEY not set"@,
            LlmError::NoAnswer { provider } => match provider {
                Provider::Anthropic => "anthropic response missing content[0].text"@,
                Provider::OpenAiCompat => "response missing choices[0].message.content"@,
            },
        }
    }

    pub fn message(&self) -> (r: String)
        ensures
            r@ == self.text(),
    {
        match self {
            LlmError::UnknownProvider { name } => {
                let mut m = "unknown ENARGEIA_LLM_PROVIDER ".to_owned();
                m.append(quote(name.as_str()).as_str());
                m.append(" (expected openai|anthropic)");
                m
            },
            LlmError::MissingKey => "ANTHROPIC_API_KEY not set".to_owned(),
            LlmError::NoAnswer { provider } => match provider {
                Provider::Anthropic => "anthropic response missing content[0].text".to_owned(),
                Provider::OpenAiCompat => {
                    "response missing choices[0].message.content".to_owned()
                },
            },
        }
    }
}

/// The provider that the settings imply; none where an unknown one is asked for.
pub open spec fn provider_of(
    explicit: Option<Seq<char>>,
    base_url: Option<Seq<char>>,
    anthropic_key: Option<Seq<char>>,
) -> Option<Provider> {
    match explicit {
        Some(name) => if name == "anthropic"@ {
            Some(Provider::Anthropic)
        } else if name == "openai"@ {
            Some(Provider::OpenAiCompat)
        } else {
            None
        },
        None => if base_url is Some {
            Some(Provider::OpenAiCompat)
        } else if anthropic_key is Some {
            Some(Provider::Anthropic)
        } else {
            Some(Provider::OpenAiCompat)
        },
    }
}

fn choose_provider(
    explicit: Option<&str>,
    base_url: Option<&str>,
    anthropic_key: Option<&str>,
) -> (r: Result<Provider, LlmError>)
    ensures
        match provider_of(opt_str(explicit), opt_str(base_url), opt_str(anthropic_key)) {
            Some(p) => r == Ok::<Provider, LlmError>(p),
            None => r matches Err(LlmError::UnknownProvider { name }) && Some(name@) == opt_str(
                explicit,
            ),
        },
{
    match explicit {
        Some(name) => {
            if str_eq(name, "anthropic") {
                Ok(Provider::Anthropic)
            } else if str_eq(name, "openai") {
                Ok(Provider::OpenAiCompat)
            } else {
                Err(LlmError::UnknownProvider { name: name.to_owned() })
            }
        },
        None => {
            if base_url.is_some() {
                Ok(Provider::OpenAiCompat)
            } else if anthropic_key.is_some() {
                Ok(Provider::Anthropic)
            } else {
                Ok(Provider::OpenAiCompat)
            }
        },
    }
}

/// How the model is reached.
#[derive(Debug)]
pub struct LlmSettings {
    pub provider: Provider,
    pub api_key: Option<String>,
    pub base_url: String,
    pub model: String,
}

#[verifier::ext_equal]
pub struct SettingsModel {
    pub provider: Provider,
    pub api_key: Option<Seq<char>>,
    pub base_url: Seq<char>,
    pub model: Seq<char>,
}

impl View for LlmSettings {
    type V = SettingsModel;

    open spec fn view(&self) -> SettingsModel {
        SettingsModel {
            provider: self.provider,
            api_key: opt_view(self.api_key),
            base_url: self.base_url@,
            model: self.model@,
        }
    }
}

/// The text without the slashes at its end.
pub open spec fn without_slashes(s: Seq<char>) -> Seq<char>
    decreases s.len(),
{
    if s.len() > 0 && s.last() == '/' {
        without_slashes(s.drop_last())
    } else {
        s
    }
}

fn strip_slashes(s: &str) -> (r: String)
    ensures
        r@ == without_slashes(s@),
{
    let cs = chars_of(s);
    let mut n: usize = cs.len();
    assert(cs@.take(n as int) =~= cs@);
    while n > 0 && cs[n - 1] == '/'
        invariant
            n <= cs@.len(),
            without_slashes(cs@) == without_slashes(cs@.take(n as int)),
        decreases n,
    {
        assert(cs@.take(n as int).drop_last() =~= cs@.take(n - 1));
        n -= 1;
    }
    let r = sub_chars(&cs, 0, n);
    assert(r@ =~= cs@.take(n as int));
    string_of(&r)
}

/// The setting, or its default.
pub open spec fn or_default(o: Option<Seq<char>>, d: Seq<char>) -> Seq<char> {
    match o {
        Some(s) => s,
        None => d,
    }
}

/// How the model is reached under the given provider; the Anthropic API needs a key. `hosted` is
/// the model that this API is asked for where none is configured: deployments name it.
pub open spec fn settings_for(
    provider: Provider,
    base_url: Option<Seq<char>>,
    anthropic_key: Option<Seq<char>>,
    openai_key: Option<Seq<char>>,
    model: Option<Seq<char>>,
    hosted: Seq<char>,
) -> Option<SettingsModel> {
    match provider {
        Provider::Anthropic => match anthropic_key {
            Some(key) => Some(
                SettingsModel {
                    provider,
                    api_key: Some(key),
                    base_url: ANTHROPIC_URL@,
                    model: or_default(model, hosted),
                },
            ),
            None => None,
        },
        Provider::OpenAiCompat => Some(
            SettingsModel {
                provider,
                api_key: openai_key,
                base_url: without_slashes(or_default(base_url, DEFAULT_OPENAI_BASE@)),
                model: or_default(model, DEFAULT_OPENAI_MODEL@),
            },
        ),
    }
}

impl LlmSettings {
    /// The settings that the given configuration amounts to; `hosted` is the model that the
    /// Anthropic API is asked for where none is configured.
    pub fn from_settings(
        explicit: Option<&str>,
        base_url: Option<&str>,
        anthropic_key: Option<&str>,
        openai_key: Option<&str>,
        model: Option<&str>,
        hosted: &str,
    ) -> (r: Result<LlmSettings, LlmError>)
        ensures
            match provider_of(opt_str(explicit), opt_str(base_url), opt_str(anthropic_key)) {
                None => r matches Err(LlmError::UnknownProvider { name }) && Some(name@)
                    == opt_str(explicit),
                Some(p) => match settings_for(
                    p,
                    opt_str(base_url),
                    opt_str(anthropic_key),
                    opt_str(openai_key),
                    opt_str(model),
                    hosted@,
                ) {
                    Some(s) => r matches Ok(l) && l@ == s,
                    None => r == Err::<LlmSettings, LlmError>(LlmError::MissingKey),
                },
            },
    {
        let provider = match choose_provider(explicit, base_url, anthropic_key) {
            Ok(p) => p,
            Err(e) => {
                return Err(e);
            },
        };
        match provider {
            Provider::Anthropic => match anthropic_key {
                Some(key) => Ok(
                    LlmSettings {
                        provider,
                        api_key: Some(key.to_owned()),
                        base_url: ANTHROPIC_URL.to_owned(),
                        model: match model {
                            Some(m) => m.to_owned(),
                            None => hosted.to_owned(),
                        },
                    },
                ),
                None => Err(LlmError::MissingKey),
            },
            Provider::OpenAiCompat => {
                let base = match base_url {
                    Some(b) => b,
                    None => DEFAULT_OPENAI_BASE,
                };
                Ok(
                    LlmSettings {
                        provider,
                        api_key: opt_owned(openai_key),
                        base_url: strip_slashes(base),
                        model: match model {
                            Some(m) => m.to_owned(),
                            None => DEFAULT_OPENAI_MODEL.to_owned(),
                        },
                    },
                )
            },
        }
    }

    /// The model in words.
    pub open spec fn description(s: SettingsModel) -> Seq<char> {
        match s.provider {
            Provider::Anthropic => "anthropic · "@ + s.model,
            Provider::OpenAiCompat => "openai-compatible @ "@ + s.base_url + " · "@ + s.model,
        }
    }

    pub fn describe(&self) -> (r: String)
        ensures
            r@ == LlmSettings::description(self@),
    {
        match self.provider {
            Provider::Anthropic => {
                let mut d = "anthropic · ".to_owned();
                d.append(self.model.as_str());
                d
            },
            Provider::OpenAiCompat => {
                let mut d = "openai-compatible @ ".to_owned();
                d.append(self.base_url.as_str());
                d.append(" · ");
                d.append(self.model.as_str());
                d
            },
        }
    }
}

/// The first item of a list field.
pub open spec fn first_in(j: Json, name: Seq<char>) -> Option<Json> {
    match items_in(j.field(name)) {
        Some(items) => item_at(items, 0),
        None => None,
    }
}

/// Where a provider puts its answer.
pub open spec fn answer_in(provider: Provider, reply: Json) -> Option<Seq<char>> {
    match provider {
        Provider::Anthropic => match first_in(reply, "content"@) {
            Some(c) => text_in(c.field("text"@)),
            None => None,
        },
        Provider::OpenAiCompat => match first_in(reply, "choices"@) {
            Some(c) => match c.field("message"@) {
                Some(m) => text_in(m.field("content"@)),
                None => None,
            },
            None => None,
        },
    }
}

/// The answer that a provider's reply holds.
pub fn read_answer(provider: Provider, reply: &Json) -> (r: Result<String, LlmError>)
    ensures
        match answer_in(provider, *reply) {
            Some(t) => r matches Ok(s) && s@ == t,
            None => r == Err::<String, LlmError>(LlmError::NoAnswer { provider }),
        },
{
    let name = match provider {
        Provider::Anthropic => "content",
        Provider::OpenAiCompat => "choices",
    };
    if let Some(items) = field_list(reply, name) {
        if items.len() > 0 {
            let first = &items[0];
            match provider {
                Provider::Anthropic => {
                    if let Some(t) = field_str(first, "text") {
                        return Ok(t.to_owned());
                    }
                },
                Provider::OpenAiCompat => {
                    if let Some(m) = first.get("message") {
                        if let Some(t) = field_str(m, "content") {
                            return Ok(t.to_owned());
                        }
                    }
                },
            }
        }
    }
    Err(LlmError::NoAnswer { provider })
}

// ---------------------------------------------------------------------------------------------
// The JSON object in a reply

/// Where a reader of JSON stands: how many braces are open, and whether it is inside a string
/// and behind a backslash there.
#[derive(Clone, Copy, Debug, PartialEq, Eq, Structural)]
pub struct BraceState {
    pub depth: usize,
    pub in_str: bool,
    pub escape: bool,
}

/// The state behind one more scalar value. Braces in strings do not count.
pub open spec fn brace_step(st: BraceState, c: char) -> BraceState {
    if st.in_str {
        if st.escape {
            BraceState { escape: false, ..st }
        } else if c == '\\' {
            BraceState { escape: true, ..st }
        } else if c == '"' {
            BraceState { in_str: false, ..st }
        } else {
            st
        }
    } else if c == '"' {
        BraceState { in_str: true, ..st }
    } else if c == '{' {
        BraceState { depth: (st.depth + 1) as usize, ..st }
    } else if c == '}' {
        BraceState { depth: (st.depth - 1) as usize, ..st }
    } else {
        st
    }
}

/// A brace outside of strings closes the last open one.
pub open spec fn closes(st: BraceState, c: char) -> bool {
    !st.in_str && c == '}' && st.depth == 1
}

/// The position behind the brace that closes the block which is open at position `i`.
pub open spec fn block_end(s: Seq<char>, i: int, st: BraceState) -> Option<int>
    decreases s.len() - i,
{
    if i < 0 || i >= s.len() {
        None
    } else if closes(st, s[i]) {
        Some(i + 1)
    } else {
        block_end(s, i + 1, brace_step(st, s[i]))
    }
}

/// Nothing is read yet.
pub open spec fn brace_begin() -> BraceState {
    BraceState { depth: 0, in_str: false, escape: false }
}

/// A brace at position `i` opens a block that is closed further on.
pub open spec fn opens_block(s: Seq<char>, i: int) -> bool {
    s[i] == '{' && block_end(s, i, brace_begin()) is Some
}

/// The first balanced block in braces that begins at position `i` or behind it.
pub open spec fn object_from(s: Seq<char>, i: int) -> Option<Seq<char>>
    decreases s.len() - i,
{
    if i >= s.len() {
        None
    } else if opens_block(s, i) {
        Some(s.subrange(i, block_end(s, i, brace_begin())->0))
    } else {
        object_from(s, i + 1)
    }
}

/// The first balanced block in braces: the one at the first brace that opens a balanced one.
pub open spec fn json_object(s: Seq<char>) -> Option<Seq<char>> {
    object_from(s, 0)
}

/// Where the block ends that the brace at `start` opens.
fn find_block_end(cs: &Vec<char>, start: usize) -> (r: Option<usize>)
    requires
        start < cs@.len(),
        cs@[start as int] == '{',
    ensures
        match r {
            Some(end) => block_end(cs@, start as int, brace_begin()) == Some(end as int) && start
                < end <= cs@.len(),
            None => block_end(cs@, start as int, brace_begin()) is None,
        },
{
    let ghost begin = brace_begin();
    let mut st = BraceState { depth: 0, in_str: false, escape: false };
    let mut i: usize = start;
    while i < cs.len()
        invariant
            start <= i <= cs@.len(),
            start < cs@.len(),
            cs@[start as int] == '{',
            begin == brace_begin(),
            st.depth <= i - start,
            i == start ==> st == begin,
            i > start ==> st.depth >= 1,
            block_end(cs@, start as int, begin) == block_end(cs@, i as int, st),
        decreases cs.len() - i,
    {
        let c = cs[i];
        if st.in_str {
            if st.escape {
                st.escape = false;
            } else if c == '\\' {
                st.escape = true;
            } else if c == '"' {
                st.in_str = false;
            }
        } else if c == '"' {
            st.in_str = true;
        } else if c == '{' {
            st.depth = st.depth + 1;
        } else if c == '}' {
            if st.depth == 1 {
                return Some(i + 1);
            }
            st.depth = st.depth - 1;
        }
        i += 1;
    }
    None
}

/// Returns the first balanced `{ ... }` block in `s`, tolerating prose or stray characters
/// around it (small local models often append a trailing `;` or a sentence).
pub fn extract_json_object(s: &str) -> (r: Option<&str>)
    ensures
        opt_str(r) == json_object(s@),
{
    let cs = chars_of(s);
    let mut i: usize = 0;
    while i < cs.len()
        invariant
            i <= cs@.len(),
            cs@ == s@,
            json_object(s@) == object_from(s@, i as int),
        decreases cs.len() - i,
    {
        if cs[i] == '{' {
            if let Some(end) = find_block_end(&cs, i) {
                return Some(s.substring_char(i, end));
            }
        }
        i += 1;
    }
    None
}

/// The state behind a text that is read from its beginning.
pub open spec fn brace_state(s: Seq<char>) -> BraceState
    decreases s.len(),
{
    if s.len() == 0 {
        BraceState { depth: 0, in_str: false, escape: false }
    } else {
        brace_step(brace_state(s.drop_last()), s.last())
    }
}

/// The block opens before it closes, and closes nowhere before its end.
pub open spec fn balanced(block: Seq<char>) -> bool {
    &&& block.len() > 0
    &&& block[0] == '{'
    &&& block.last() == '}'
    &&& closes(brace_state(block.drop_last()), block.last())
    &&& forall|k: int|
        0 <= k < block.len() - 1 ==> !closes(brace_state(#[trigger] block.take(k)), block[k])
}

proof fn lemma_block_end(s: Seq<char>, start: int, i: int, st: BraceState)
    requires
        0 <= start <= i <= s.len(),
        st == brace_state(s.subrange(start, i)),
        forall|k: int|
            0 <= k < i - start ==> !closes(
                brace_state(#[trigger] s.subrange(start, i).take(k)),
                s[start + k],
            ),
    ensures
        block_end(s, i, st) matches Some(end) ==> i < end <= s.len() && closes(
            brace_state(s.subrange(start, end).drop_last()),
            s[end - 1],
        ) && s[end - 1] == '}' && forall|k: int|
            0 <= k < end - 1 - start ==> !closes(
                brace_state(#[trigger] s.subrange(start, end).take(k)),
                s[start + k],
            ),
    decreases s.len() - i,
{
    if i < s.len() {
        let next = s.subrange(start, i + 1);
        assert(next.drop_last() =~= s.subrange(start, i));
        if closes(st, s[i]) {
            assert forall|k: int| 0 <= k < i - start implies !closes(
                brace_state(#[trigger] next.take(k)),
                s[start + k],
            ) by {
                assert(next.take(k) =~= s.subrange(start, i).take(k));
            }
        } else {
            assert forall|k: int| 0 <= k < i + 1 - start implies !closes(
                brace_state(#[trigger] next.take(k)),
                s[start + k],
            ) by {
                if k < i - start {
                    assert(next.take(k) =~= s.subrange(start, i).take(k));
                } else {
                    assert(next.take(k) =~= s.subrange(start, i));
                }
            }
            lemma_block_end(s, start, i + 1, brace_step(st, s[i]));
        }
    }
}

proof fn lemma_object_from(s: Seq<char>, i: int)
    requires
        0 <= i,
    ensures
        match object_from(s, i) {
            Some(block) => exists|start: int|
                i <= start < s.len() && #[trigger] opens_block(s, start) && block == s.subrange(
                    start,
                    block_end(s, start, brace_begin())->0,
                ) && forall|k: int| i <= k < start ==> !#[trigger] opens_block(s, k),
            None => forall|k: int| i <= k < s.len() ==> !#[trigger] opens_block(s, k),
        },
    decreases s.len() - i,
{
    if i < s.len() && !opens_block(s, i) {
        lemma_object_from(s, i + 1);
    }
}

/// What is taken out of a reply stands in it and is a balanced block: it opens with a brace, and
/// its last brace is the first that closes it. No brace before it opens such a block; where
/// nothing is taken out, none does.
pub proof fn law_object_is_balanced(s: Seq<char>)
    ensures
        match json_object(s) {
            Some(block) => balanced(block) && exists|start: int| #[trigger]
                crate::text::occurs_at(s, block, start) && forall|k: int|
                    0 <= k < start ==> !#[trigger] opens_block(s, k),
            None => forall|k: int| 0 <= k < s.len() ==> !#[trigger] opens_block(s, k),
        },
{
    lemma_object_from(s, 0);
    if let Some(block) = json_object(s) {
        let begin = brace_begin();
        let start = choose|start: int|
            0 <= start < s.len() && #[trigger] opens_block(s, start) && block == s.subrange(
                start,
                block_end(s, start, begin)->0,
            ) && forall|k: int| 0 <= k < start ==> !#[trigger] opens_block(s, k);
        assert(s.subrange(start, start) =~= seq![]);
        assert(brace_state(s.subrange(start, start)) == begin);
        lemma_block_end(s, start, start, begin);
        let end = block_end(s, start, begin)->0;
        assert(block == s.subrange(start, end));
        assert(block[0] == s[start]);
        assert(block.last() == s[end - 1]);
        assert(crate::text::occurs_at(s, block, start));
        assert forall|k: int| 0 <= k < block.len() - 1 implies !closes(
            brace_state(#[trigger] block.take(k)),
            block[k],
        ) by {
            assert(block[k] == s[start + k]);
        }
    }
}

} // verus!
