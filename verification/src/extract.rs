//! Mention extraction: the first hop of resolution. A zero-shot tagger is used when a model is
//! present, capitalized spans otherwise. Both are free per item; neither calls a language model.

use regex::Regex;
use vstd::prelude::*;
use vstd::string::*;

use crate::double::Double;
use crate::models::rows;
use crate::order::{ints, positions, rank_descending, ranking};
use crate::text::{
    ascii_digit, ascii_lower, chars_of, is_ascii_digit, is_space, lower_ascii, lowercase, opt_copy,
    opt_view, pieces, space, split_at_char, split_words, str_eq, string_of, sub_chars, trim,
    trim_chars, trim_end, trim_start, trimmed, uppercase, utf8_len, views, width, words,
};

verus! {

/// The directory of the tagger's model when none is configured.
pub const DEFAULT_MODEL_DIR: &'static str = "models/gliner_small-v2.1";

/// The repository that holds the tagger's model.
pub const MODEL_REPO: &'static str = "onnx-community/gliner_small-v2.1";

/// The tagger handles roughly 384 tokens; chunks stay well under that and are batched.
pub const CHUNK_CHARS: usize = 1200;

/// A name found in a text.
#[derive(Debug)]
pub struct Mention {
    pub text: String,
    /// The tagger's label; `None` for the capitalized-span fallback.
    pub label: Option<String>,
    /// Character offsets into the source text, best effort, for provenance.
    pub start: usize,
    pub end: usize,
    pub score: Double,
}

#[verifier::ext_equal]
pub struct MentionModel {
    pub text: Seq<char>,
    pub label: Option<Seq<char>>,
    pub start: usize,
    pub end: usize,
    pub score: Double,
}

impl View for Mention {
    type V = MentionModel;

    open spec fn view(&self) -> MentionModel {
        MentionModel {
            text: self.text@,
            label: opt_view(self.label),
            start: self.start,
            end: self.end,
            score: self.score,
        }
    }
}

impl Mention {
    pub fn dup(&self) -> (r: Mention)
        ensures
            r == *self,
    {
        Mention {
            text: self.text.clone(),
            label: opt_copy(&self.label),
            start: self.start,
            end: self.end,
            score: self.score,
        }
    }
}

/// Why no mentions could be extracted.
#[derive(Debug)]
pub enum ExtractError {
    /// The tagger was asked for, but there is no model.
    NoModel { dir: String },
    /// The span pattern does not compile.
    Pattern,
    /// The tagger failed.
    Tagger { reason: String },
}

impl ExtractError {
    pub open spec fn text(self) -> Seq<char> {
        match self {
            ExtractError::NoModel { dir } => "ENARGEIA_EXTRACTOR=gliner but no model at "@ + dir@
                + "; run `enargeia models fetch`"@,
            ExtractError::Pattern => "the mention pattern does not compile"@,
            ExtractError::Tagger { reason } => reason@,
        }
    }

    pub fn message(&self) -> (r: String)
        ensures
            r@ == self.text(),
    {
        match self {
            ExtractError::NoModel { dir } => {
                let mut m = "ENARGEIA_EXTRACTOR=gliner but no model at ".to_owned();
                m.append(dir.as_str());
                m.append("; run `enargeia models fetch`");
                m
            },
            ExtractError::Pattern => "the mention pattern does not compile".to_owned(),
            ExtractError::Tagger { reason } => reason.clone(),
        }
    }
}

/// Finds the names in a text.
pub trait MentionExtractor {
    /// What the extractor may find in a text; anything, unless an extractor says more.
    open spec fn may_find(&self, text: Seq<char>, ms: Seq<MentionModel>) -> bool {
        true
    }

    /// The texts on which the extractor may fail; all, unless an extractor says more.
    open spec fn may_fail(&self, text: Seq<char>) -> bool {
        true
    }

    fn name(&self) -> String;

    fn extract(&self, text: &str) -> (r: Result<Vec<Mention>, ExtractError>)
        ensures
            match r {
                Ok(ms) => self.may_find(text@, rows(ms@)),
                Err(_) => self.may_fail(text@),
            },
    ;
}

// ---------------------------------------------------------------------------------------------
// Configuration

/// The labels that the tagger looks for when none are configured.
pub open spec fn default_labels() -> Seq<Seq<char>> {
    seq![
        "person"@,
        "organization"@,
        "location"@,
        "event"@,
        "product"@,
        "vessel"@,
        "aircraft"@,
        "satellite"@,
    ]
}

/// The trimmed, lower-cased pieces that are not empty.
pub open spec fn labels_in(ps: Seq<Seq<char>>) -> Seq<Seq<char>>
    decreases ps.len(),
{
    if ps.len() == 0 {
        seq![]
    } else {
        let l = lowercase(trim(ps.last()));
        if l.len() == 0 {
            labels_in(ps.drop_last())
        } else {
            labels_in(ps.drop_last()).push(l)
        }
    }
}

/// The labels to look for: those of a comma-separated setting that is not blank, else the
/// default ones.
pub fn labels_from(setting: Option<&str>) -> (r: Vec<String>)
    ensures
        views(r@) == match setting {
            Some(s) => if trim(s@).len() > 0 {
                labels_in(pieces(s@, ','))
            } else {
                default_labels()
            },
            None => default_labels(),
        },
{
    if let Some(s) = setting {
        let cs = chars_of(s);
        if trim_chars(&cs).len() > 0 {
            let ps = split_at_char(&cs, ',');
            let ghost pv = views(ps@);
            let mut out: Vec<String> = Vec::new();
            let mut i: usize = 0;
            assert(pv.take(0) =~= seq![]);
            assert(views(out@) =~= seq![]);
            while i < ps.len()
                invariant
                    i <= ps@.len(),
                    pv == views(ps@),
                    views(out@) == labels_in(pv.take(i as int)),
                decreases ps.len() - i,
            {
                assert(pv.take(i + 1).drop_last() =~= pv.take(i as int));
                assert(pv.take(i + 1).last() == ps@[i as int]@);
                let ghost done = views(out@);
                let l = trimmed(ps[i].as_str()).as_str().to_lowercase();
                let ghost lv = l@;
                if !l.as_str().is_empty() {
                    out.push(l);
                    assert(views(out@) =~= done.push(lv));
                }
                i += 1;
            }
            assert(pv.take(i as int) =~= pv);
            return out;
        }
    }
    let out: Vec<String> = vec![
        "person".to_owned(),
        "organization".to_owned(),
        "location".to_owned(),
        "event".to_owned(),
        "product".to_owned(),
        "vessel".to_owned(),
        "aircraft".to_owned(),
        "satellite".to_owned(),
    ];
    assert(views(out@) =~= default_labels());
    out
}

/// Which extractor is used.
#[derive(Clone, Copy, Debug, PartialEq, Eq, Structural)]
pub enum ExtractorChoice {
    Spans,
    Tagger,
}

/// Picks the tagger when its model is present, the spans otherwise; a setting of "regex" forces
/// the spans, and one of "gliner" makes a missing model an error.
pub fn choose_extractor(forced: Option<&str>, model_present: bool, dir: &str) -> (r: Result<
    ExtractorChoice,
    ExtractError,
>)
    ensures
        ({
            let f = crate::text::opt_str(forced);
            if f == Some("regex"@) {
                r == Ok::<ExtractorChoice, ExtractError>(ExtractorChoice::Spans)
            } else if model_present {
                r == Ok::<ExtractorChoice, ExtractError>(ExtractorChoice::Tagger)
            } else if f == Some("gliner"@) {
                r matches Err(ExtractError::NoModel { dir: d }) && d@ == dir@
            } else {
                r == Ok::<ExtractorChoice, ExtractError>(ExtractorChoice::Spans)
            }
        }),
{
    let (spans, tagger) = match forced {
        Some(f) => (str_eq(f, "regex"), str_eq(f, "gliner")),
        None => (false, false),
    };
    if spans {
        Ok(ExtractorChoice::Spans)
    } else if model_present {
        Ok(ExtractorChoice::Tagger)
    } else if tagger {
        Err(ExtractError::NoModel { dir: dir.to_owned() })
    } else {
        Ok(ExtractorChoice::Spans)
    }
}

// ---------------------------------------------------------------------------------------------
// Offsets

/// How many scalar values of `s` begin before byte `b`.
pub open spec fn char_index(s: Seq<char>, b: int) -> int
    decreases s.len(),
{
    if s.len() == 0 || b <= 0 {
        0
    } else {
        1 + char_index(s.drop_first(), b - utf8_len(s[0]))
    }
}

proof fn lemma_char_index(s: Seq<char>, b: int, c: int)
    requires
        b <= c,
    ensures
        0 <= char_index(s, b) <= char_index(s, c) <= s.len(),
    decreases s.len(),
{
    if s.len() > 0 && c > 0 {
        lemma_char_index(s.drop_first(), b - utf8_len(s[0]), c - utf8_len(s[0]));
    }
}

fn chars_before(cs: &Vec<char>, b: usize) -> (r: usize)
    ensures
        r == char_index(cs@, b as int),
        r <= cs@.len(),
{
    let mut i: usize = 0;
    let mut left: usize = b;
    assert(cs@.skip(0) =~= cs@);
    while i < cs.len() && left > 0
        invariant
            i <= cs@.len(),
            char_index(cs@, b as int) == i + char_index(cs@.skip(i as int), left as int),
        decreases cs.len() - i,
    {
        assert(cs@.skip(i as int).drop_first() =~= cs@.skip(i + 1));
        let c = cs[i];
        let n = width(c);
        left = if left > n {
            left - n
        } else {
            proof {
                lemma_char_index(cs@.skip(i + 1), left - n, 0);
            }
            0
        };
        i += 1;
    }
    i
}

// ---------------------------------------------------------------------------------------------
// Capitalized spans

/// Runs of one to four capitalized words. Deliberately permissive; the matcher and the review
/// filter.
pub const MENTION_PATTERN: &'static str =
    "\\b([A-Z][a-zA-Z0-9&\\-]*(?:\\s+[A-Z][a-zA-Z0-9&\\-]*){0,3})\\b";

/// The byte spans of the first group of each match of a pattern in a text, in order; nothing
/// where the pattern does not compile, and no span where the group took no part in a match.
pub uninterp spec fn group_spans(pattern: Seq<char>, text: Seq<char>) -> Option<
    Seq<Option<(usize, usize)>>,
>;

/// `regex::Regex::captures_iter`: the byte span of the first group of each match. Which these
/// are is a function of pattern and text, and a span ends where it begins or later.
#[verifier::external_body]
fn find_groups(pattern: &str, text: &str) -> (r: Option<Vec<Option<(usize, usize)>>>)
    ensures
        match r {
            Some(v) => group_spans(pattern@, text@) == Some(v@) && forall|i: int|
                0 <= i < v@.len() ==> (#[trigger] v@[i] matches Some((s, e)) ==> s <= e),
            None => group_spans(pattern@, text@) is None,
        },
{
    let re = Regex::new(pattern).ok()?;
    Some(re.captures_iter(text).map(|c| c.get(1).map(|m| (m.start(), m.end()))).collect())
}

/// The bits of the single-precision 0.3 as a double: the score of a capitalized span.
pub const SPAN_SCORE: u64 = 0x3fd3333340000000;

/// A single word of less than three bytes is no name.
pub open spec fn too_short(t: Seq<char>) -> bool {
    words(t).len() == 1 && crate::matcher::byte_len(t) < 3
}

/// The name is among those found, whatever its case.
pub open spec fn seen(ms: Seq<MentionModel>, t: Seq<char>) -> bool {
    exists|i: int| 0 <= i < ms.len() && lowercase((#[trigger] ms[i]).text) == lowercase(t)
}

/// The mention at a byte span.
pub open spec fn span_mention(text: Seq<char>, span: (usize, usize)) -> MentionModel {
    let from = char_index(text, span.0 as int);
    let to = char_index(text, span.1 as int);
    MentionModel {
        text: trim(text.subrange(from, to)),
        label: None,
        start: from as usize,
        end: to as usize,
        score: Double { bits: SPAN_SCORE },
    }
}

/// The mentions at the spans: each name once, whatever its case, and no short words.
pub open spec fn span_mentions(text: Seq<char>, spans: Seq<Option<(usize, usize)>>) -> Seq<
    MentionModel,
>
    decreases spans.len(),
{
    if spans.len() == 0 {
        seq![]
    } else {
        let r = span_mentions(text, spans.drop_last());
        match spans.last() {
            None => r,
            Some(span) => {
                let m = span_mention(text, span);
                if too_short(m.text) || seen(r, m.text) {
                    r
                } else {
                    r.push(m)
                }
            },
        }
    }
}

fn was_seen(ms: &Vec<Mention>, t: &str) -> (r: bool)
    ensures
        r == seen(rows(ms@), t@),
{
    let lower = t.to_lowercase();
    let mut i: usize = 0;
    while i < ms.len()
        invariant
            i <= ms@.len(),
            lower@ == lowercase(t@),
            forall|j: int|
                0 <= j < i ==> lowercase((#[trigger] rows(ms@)[j]).text) != lowercase(t@),
        decreases ms.len() - i,
    {
        if str_eq(ms[i].text.as_str().to_lowercase().as_str(), lower.as_str()) {
            assert(lowercase(rows(ms@)[i as int].text) == lowercase(t@));
            return true;
        }
        i += 1;
    }
    false
}

/// The mentions at the given byte spans of a text.
pub fn mentions_at(text: &str, spans: &Vec<Option<(usize, usize)>>) -> (r: Vec<Mention>)
    requires
        forall|i: int|
            0 <= i < spans@.len() ==> (#[trigger] spans@[i] matches Some((s, e)) ==> s <= e),
    ensures
        rows(r@) == span_mentions(text@, spans@),
{
    let cs = chars_of(text);
    let mut out: Vec<Mention> = Vec::new();
    let mut i: usize = 0;
    assert(spans@.take(0) =~= seq![]);
    assert(rows(out@) =~= seq![]);
    while i < spans.len()
        invariant
            i <= spans@.len(),
            cs@ == text@,
            forall|i: int|
                0 <= i < spans@.len() ==> (#[trigger] spans@[i] matches Some((s, e)) ==> s <= e),
            rows(out@) == span_mentions(text@, spans@.take(i as int)),
        decreases spans.len() - i,
    {
        assert(spans@.take(i + 1).drop_last() =~= spans@.take(i as int));
        assert(spans@.take(i + 1).last() == spans@[i as int]);
        if let Some((s, e)) = spans[i] {
            assert(s <= e);
            proof {
                lemma_char_index(cs@, s as int, e as int);
            }
            let from = chars_before(&cs, s);
            let to = chars_before(&cs, e);
            let t = string_of(&trim_chars(&sub_chars(&cs, from, to)));
            let ghost done = rows(out@);
            let ws = split_words(&chars_of(t.as_str()));
            assert(views(ws@).len() == ws@.len());
            let short = ws.len() == 1 && t.as_str().as_bytes().len() < 3;
            if !short && !was_seen(&out, t.as_str()) {
                let m = Mention {
                    text: t,
                    label: None,
                    start: from,
                    end: to,
                    score: Double::from_bits(SPAN_SCORE),
                };
                let ghost mv = m@;
                out.push(m);
                assert(rows(out@) =~= done.push(mv));
            }
        }
        i += 1;
    }
    assert(spans@.take(i as int) =~= spans@);
    out
}

/// The fallback: capitalized spans.
pub struct RegexExtractor;

impl MentionExtractor for RegexExtractor {
    open spec fn may_find(&self, text: Seq<char>, ms: Seq<MentionModel>) -> bool {
        group_spans(MENTION_PATTERN@, text) matches Some(spans) && ms == span_mentions(text, spans)
    }

    open spec fn may_fail(&self, text: Seq<char>) -> bool {
        group_spans(MENTION_PATTERN@, text) is None
    }

    fn name(&self) -> (r: String)
        ensures
            r@ == "regex"@,
    {
        "regex".to_owned()
    }

    fn extract(&self, text: &str) -> (r: Result<Vec<Mention>, ExtractError>)
        ensures
            match group_spans(MENTION_PATTERN@, text@) {
                Some(spans) => r matches Ok(ms) && rows(ms@) == span_mentions(text@, spans),
                None => r == Err::<Vec<Mention>, ExtractError>(ExtractError::Pattern),
            },
    {
        match find_groups(MENTION_PATTERN, text) {
            Some(spans) => Ok(mentions_at(text, &spans)),
            None => Err(ExtractError::Pattern),
        }
    }
}

// ---------------------------------------------------------------------------------------------
// Cleaning

/// A span with no capital letter and no digit ("users", "data breach", "frontier lab") is a
/// common noun that the tagger labeled as an entity, not a name. Named entities in running text
/// are capitalized or contain digits (a16z, H100).
pub open spec fn generic(text: Seq<char>) -> bool {
    forall|i: int|
        0 <= i < text.len() ==> !uppercase(#[trigger] text[i]) && !is_ascii_digit(text[i])
}

pub fn is_generic(text: &str) -> (r: bool)
    ensures
        r == generic(text@),
{
    let cs = chars_of(text);
    let mut i: usize = 0;
    while i < cs.len()
        invariant
            i <= cs@.len(),
            cs@ == text@,
            forall|j: int| 0 <= j < i ==> !uppercase(#[trigger] cs@[j]) && !is_ascii_digit(cs@[j]),
        decreases cs.len() - i,
    {
        if cs[i].is_uppercase() || ascii_digit(cs[i]) {
            assert(!(!uppercase(text@[i as int]) && !is_ascii_digit(text@[i as int])));
            return false;
        }
        i += 1;
    }
    true
}

/// A mark that is trimmed off the ends of a span.
pub open spec fn is_mark(c: char) -> bool {
    !crate::text::alphanumeric(c) && c != '$' && c != '&'
}

pub open spec fn without_leading_marks(s: Seq<char>) -> Seq<char>
    decreases s.len(),
{
    if s.len() > 0 && is_mark(s[0]) {
        without_leading_marks(s.drop_first())
    } else {
        s
    }
}

pub open spec fn without_trailing_marks(s: Seq<char>) -> Seq<char>
    decreases s.len(),
{
    if s.len() > 0 && is_mark(s.last()) {
        without_trailing_marks(s.drop_last())
    } else {
        s
    }
}

fn mark(c: char) -> (r: bool)
    ensures
        r == is_mark(c),
{
    !c.is_alphanumeric() && c != '$' && c != '&'
}

fn strip_leading_marks(cs: &Vec<char>) -> (r: Vec<char>)
    ensures
        r@ == without_leading_marks(cs@),
{
    let mut i: usize = 0;
    assert(cs@.skip(0) =~= cs@);
    while i < cs.len() && mark(cs[i])
        invariant
            i <= cs@.len(),
            without_leading_marks(cs@) == without_leading_marks(cs@.skip(i as int)),
        decreases cs.len() - i,
    {
        assert(cs@.skip(i as int).drop_first() =~= cs@.skip(i + 1));
        i += 1;
    }
    let r = sub_chars(cs, i, cs.len());
    assert(r@ =~= cs@.skip(i as int));
    r
}

fn strip_trailing_marks(cs: &Vec<char>) -> (r: Vec<char>)
    ensures
        r@ == without_trailing_marks(cs@),
{
    let mut n: usize = cs.len();
    assert(cs@.take(n as int) =~= cs@);
    while n > 0 && mark(cs[n - 1])
        invariant
            n <= cs@.len(),
            without_trailing_marks(cs@) == without_trailing_marks(cs@.take(n as int)),
        decreases n,
    {
        assert(cs@.take(n as int).drop_last() =~= cs@.take(n - 1));
        n -= 1;
    }
    let r = sub_chars(cs, 0, n);
    assert(r@ =~= cs@.take(n as int));
    r
}

/// The text begins with the given word and a blank, whatever its case, and goes on after it.
pub open spec fn leads_with(s: Seq<char>, word: Seq<char>) -> bool {
    s.len() > word.len() && ascii_lower(s.take(word.len() as int)) == word
}

/// The length of the leading conjunction, determiner or preposition, with its blank; 0 where
/// there is none.
pub open spec fn lead_len(s: Seq<char>) -> int {
    if leads_with(s, "and "@) {
        4
    } else if leads_with(s, "or "@) {
        3
    } else if leads_with(s, "the "@) {
        4
    } else if leads_with(s, "a "@) {
        2
    } else if leads_with(s, "an "@) {
        3
    } else if leads_with(s, "of "@) {
        3
    } else if leads_with(s, "at "@) {
        3
    } else if leads_with(s, "in "@) {
        3
    } else if leads_with(s, "by "@) {
        3
    } else {
        0
    }
}

/// The text without its leading conjunctions, determiners and prepositions, and the marks that
/// follow them.
pub open spec fn without_leads(s: Seq<char>) -> Seq<char>
    decreases s.len(),
{
    let n = lead_len(s);
    if n <= 0 || n > s.len() || without_leading_marks(s.skip(n)).len() >= s.len() {
        s
    } else {
        without_leads(without_leading_marks(s.skip(n)))
    }
}

fn leads(cs: &Vec<char>, word: &str) -> (r: bool)
    ensures
        r == leads_with(cs@, word@),
{
    let w = chars_of(word);
    if cs.len() <= w.len() {
        return false;
    }
    let head = lower_ascii(&sub_chars(cs, 0, w.len()));
    assert(cs@.subrange(0, w@.len() as int) =~= cs@.take(w@.len() as int));
    let mut i: usize = 0;
    while i < w.len()
        invariant
            i <= w@.len(),
            head@.len() == w@.len(),
            w@ == word@,
            head@ == ascii_lower(cs@.take(w@.len() as int)),
            forall|j: int| 0 <= j < i ==> head@[j] == w@[j],
        decreases w.len() - i,
    {
        if head[i] != w[i] {
            assert(head@[i as int] != w@[i as int]);
            return false;
        }
        i += 1;
    }
    assert(head@ =~= w@);
    true
}

fn lead_of(cs: &Vec<char>) -> (r: usize)
    ensures
        r == lead_len(cs@),
        r <= cs@.len(),
{
    proof {
        reveal_strlit("and ");
        reveal_strlit("or ");
        reveal_strlit("the ");
        reveal_strlit("a ");
        reveal_strlit("an ");
        reveal_strlit("of ");
        reveal_strlit("at ");
        reveal_strlit("in ");
        reveal_strlit("by ");
    }
    if leads(cs, "and ") {
        4
    } else if leads(cs, "or ") {
        3
    } else if leads(cs, "the ") {
        4
    } else if leads(cs, "a ") {
        2
    } else if leads(cs, "an ") {
        3
    } else if leads(cs, "of ") {
        3
    } else if leads(cs, "at ") {
        3
    } else if leads(cs, "in ") {
        3
    } else if leads(cs, "by ") {
        3
    } else {
        0
    }
}

proof fn lemma_leading_marks_shrink(s: Seq<char>)
    ensures
        without_leading_marks(s).len() <= s.len(),
    decreases s.len(),
{
    if s.len() > 0 && is_mark(s[0]) {
        lemma_leading_marks_shrink(s.drop_first());
    }
}

fn strip_leads(cs: Vec<char>) -> (r: Vec<char>)
    ensures
        r@ == without_leads(cs@),
{
    let mut s = cs;
    let ghost start = s@;
    loop
        invariant
            without_leads(start) == without_leads(s@),
        ensures
            s@ == without_leads(start),
        decreases s@.len(),
    {
        let n = lead_of(&s);
        if n == 0 {
            break;
        }
        let rest = sub_chars(&s, n, s.len());
        assert(rest@ =~= s@.skip(n as int));
        proof {
            lemma_leading_marks_shrink(rest@);
        }
        s = strip_leading_marks(&rest);
    }
    s
}

/// The text without the given ending.
pub open spec fn without_end(s: Seq<char>, end: Seq<char>) -> Seq<char> {
    if crate::matcher::ends_with(s, end) {
        s.take(s.len() - end.len())
    } else {
        s
    }
}

fn strip_end(cs: Vec<char>, end: &str) -> (r: Vec<char>)
    ensures
        r@ == without_end(cs@, end@),
{
    let e = chars_of(end);
    if crate::matcher::ends_with_chars(&cs, &e) {
        let r = sub_chars(&cs, 0, cs.len() - e.len());
        assert(r@ =~= cs@.take(cs@.len() - e@.len()));
        r
    } else {
        cs
    }
}

/// A raw span as a name: without surrounding marks, leading conjunctions and determiners, and
/// possessive endings.
pub open spec fn cleaned(raw: Seq<char>) -> Seq<char> {
    let s = without_leads(without_trailing_marks(without_leading_marks(trim(raw))));
    without_trailing_marks(without_end(without_end(s, "'s"@), "’s"@))
}

proof fn lemma_leading_marks_go(s: Seq<char>)
    ensures
        without_leading_marks(s).len() > 0 ==> !is_mark(without_leading_marks(s)[0]),
    decreases s.len(),
{
    if s.len() > 0 && is_mark(s[0]) {
        lemma_leading_marks_go(s.drop_first());
    }
}

proof fn lemma_trailing_marks_go(s: Seq<char>)
    ensures
        without_trailing_marks(s).len() <= s.len(),
        without_trailing_marks(s) == s.take(without_trailing_marks(s).len() as int),
        without_trailing_marks(s).len() > 0 ==> !is_mark(without_trailing_marks(s).last()),
    decreases s.len(),
{
    if s.len() > 0 && is_mark(s.last()) {
        lemma_trailing_marks_go(s.drop_last());
        let n = without_trailing_marks(s).len() as int;
        assert(s.drop_last().take(n) =~= s.take(n));
    } else {
        assert(s.take(s.len() as int) =~= s);
    }
}

proof fn lemma_leads_go(s: Seq<char>)
    requires
        s.len() > 0 ==> !is_mark(s[0]),
    ensures
        without_leads(s).len() > 0 ==> !is_mark(without_leads(s)[0]),
    decreases s.len(),
{
    let n = lead_len(s);
    if 0 < n <= s.len() && without_leading_marks(s.skip(n)).len() < s.len() {
        lemma_leading_marks_go(s.skip(n));
        lemma_leads_go(without_leading_marks(s.skip(n)));
    }
}

/// No mark is left at either end of a cleaned mention, whatever stood between marks, leading
/// words and possessive endings.
pub proof fn law_clean_mentions_are_bare(raw: Seq<char>)
    ensures
        cleaned(raw).len() > 0 ==> !is_mark(cleaned(raw)[0]) && !is_mark(cleaned(raw).last()),
{
    let bare = without_leading_marks(trim(raw));
    let whole = without_trailing_marks(bare);
    let s = without_leads(whole);
    let named = without_end(without_end(s, "'s"@), "’s"@);
    lemma_leading_marks_go(trim(raw));
    lemma_trailing_marks_go(bare);
    lemma_leads_go(whole);
    lemma_trailing_marks_go(named);
}

/// Trims a raw span: leading conjunctions and determiners that the tagger sometimes includes
/// ("and Replit", "the Fed"), surrounding quotes and punctuation, and possessive suffixes.
pub fn clean_mention(raw: &str) -> (r: String)
    ensures
        r@ == cleaned(raw@),
{
    let s = strip_trailing_marks(&strip_leading_marks(&trim_chars(&chars_of(raw))));
    let s = strip_end(strip_end(strip_leads(s), "'s"), "’s");
    string_of(&strip_trailing_marks(&s))
}

// ---------------------------------------------------------------------------------------------
// Tagged spans

/// A span as the tagger reports it: the chunk it was found in, the text, its label, its
/// character offsets in the chunk and its probability.
#[derive(Debug)]
pub struct TaggedSpan {
    pub sequence: usize,
    pub text: String,
    pub class: String,
    pub start: usize,
    pub end: usize,
    pub probability: Double,
}

#[verifier::ext_equal]
pub struct SpanModel {
    pub sequence: usize,
    pub text: Seq<char>,
    pub class: Seq<char>,
    pub start: usize,
    pub end: usize,
    pub probability: Double,
}

impl View for TaggedSpan {
    type V = SpanModel;

    open spec fn view(&self) -> SpanModel {
        SpanModel {
            sequence: self.sequence,
            text: self.text@,
            class: self.class@,
            start: self.start,
            end: self.end,
            probability: self.probability,
        }
    }
}

/// The span lies in one of the chunks, and its offsets in the whole text are machine numbers.
pub open spec fn in_chunks(span: SpanModel, bases: Seq<usize>) -> bool {
    &&& span.sequence < bases.len()
    &&& bases[span.sequence as int] + span.start <= usize::MAX
    &&& bases[span.sequence as int] + span.end <= usize::MAX
}

/// The mention of a span, at its place in the whole text.
pub open spec fn tagged_mention(span: SpanModel, bases: Seq<usize>) -> MentionModel {
    MentionModel {
        text: cleaned(span.text),
        label: Some(span.class),
        start: (bases[span.sequence as int] + span.start) as usize,
        end: (bases[span.sequence as int] + span.end) as usize,
        score: span.probability,
    }
}

/// The position of the mention with the same name, whatever its case; the number of mentions if
/// there is none.
pub open spec fn same_name_at(ms: Seq<MentionModel>, t: Seq<char>) -> int
    decreases ms.len(),
{
    if ms.len() == 0 {
        0
    } else if lowercase(ms[0].text) == lowercase(t) {
        0
    } else {
        1 + same_name_at(ms.drop_first(), t)
    }
}

/// The mentions with one more, which takes the place of one with the same name and a lower
/// score.
pub open spec fn kept(ms: Seq<MentionModel>, m: MentionModel) -> Seq<MentionModel> {
    let at = same_name_at(ms, m.text);
    if at >= ms.len() {
        ms.push(m)
    } else if ms[at].score.rank() >= m.score.rank() {
        ms
    } else {
        ms.update(at, m)
    }
}

/// One mention per name, at its best score; nothing that is empty or generic.
pub open spec fn best_mentions(spans: Seq<SpanModel>, bases: Seq<usize>) -> Seq<MentionModel>
    decreases spans.len(),
{
    if spans.len() == 0 {
        seq![]
    } else {
        let r = best_mentions(spans.drop_last(), bases);
        let m = tagged_mention(spans.last(), bases);
        if m.text.len() == 0 || generic(m.text) {
            r
        } else {
            kept(r, m)
        }
    }
}

/// The mentions in the order of their offsets.
pub open spec fn by_start(ms: Seq<MentionModel>) -> Seq<MentionModel> {
    let order = ranking(Seq::new(ms.len(), |i: int| -(ms[i].start as int)));
    Seq::new(ms.len(), |i: int| ms[order[i]])
}

fn find_same_name(ms: &Vec<Mention>, t: &str) -> (r: usize)
    ensures
        r == same_name_at(rows(ms@), t@),
        r <= ms@.len(),
{
    let lower = t.to_lowercase();
    let ghost all = rows(ms@);
    let mut i: usize = 0;
    assert(all.skip(0) =~= all);
    while i < ms.len()
        invariant
            i <= ms@.len(),
            all == rows(ms@),
            lower@ == lowercase(t@),
            same_name_at(all, t@) == i + same_name_at(all.skip(i as int), t@),
        decreases ms.len() - i,
    {
        assert(all.skip(i as int)[0] == ms@[i as int]@);
        assert(all.skip(i as int).drop_first() =~= all.skip(i + 1));
        if str_eq(ms[i].text.as_str().to_lowercase().as_str(), lower.as_str()) {
            return i;
        }
        i += 1;
    }
    i
}

/// Keeps one mention per distinct name, at its best score, in the order of the offsets.
/// `bases` are the offsets of the chunks in the whole text.
pub fn collect_mentions(spans: &Vec<TaggedSpan>, bases: &Vec<usize>) -> (r: Vec<Mention>)
    requires
        forall|i: int| 0 <= i < spans@.len() ==> in_chunks((#[trigger] spans@[i])@, bases@),
    ensures
        rows(r@) == by_start(best_mentions(rows(spans@), bases@)),
{
    let ghost all = rows(spans@);
    let mut best: Vec<Mention> = Vec::new();
    let mut i: usize = 0;
    assert(all.take(0) =~= seq![]);
    assert(rows(best@) =~= seq![]);
    while i < spans.len()
        invariant
            i <= spans@.len(),
            all == rows(spans@),
            forall|i: int| 0 <= i < spans@.len() ==> in_chunks((#[trigger] spans@[i])@, bases@),
            rows(best@) == best_mentions(all.take(i as int), bases@),
        decreases spans.len() - i,
    {
        assert(all.take(i + 1).drop_last() =~= all.take(i as int));
        assert(all.take(i + 1).last() == spans@[i as int]@);
        assert(in_chunks(spans@[i as int]@, bases@));
        let span = &spans[i];
        let base = bases[span.sequence];
        let m = Mention {
            text: clean_mention(span.text.as_str()),
            label: Some(span.class.clone()),
            start: base + span.start,
            end: base + span.end,
            score: span.probability,
        };
        let ghost mv = m@;
        let ghost done = rows(best@);
        if !m.text.as_str().is_empty() && !is_generic(m.text.as_str()) {
            let at = find_same_name(&best, m.text.as_str());
            if at == best.len() {
                best.push(m);
                assert(rows(best@) =~= done.push(mv));
            } else if !best[at].score.at_least(m.score) {
                best.set(at, m);
                assert(rows(best@) =~= done.update(at as int, mv));
            }
        }
        i += 1;
    }
    assert(all.take(i as int) =~= all);
    let ghost found = rows(best@);
    let mut keys: Vec<i128> = Vec::new();
    let mut j: usize = 0;
    while j < best.len()
        invariant
            j <= best@.len(),
            keys@.len() == j,
            forall|k: int| 0 <= k < j ==> #[trigger] keys@[k] == -(best@[k].start as int),
        decreases best.len() - j,
    {
        keys.push(-(best[j].start as i128));
        j += 1;
    }
    assert(ints(keys@) =~= Seq::new(found.len(), |i: int| -(found[i].start as int)));
    let order = rank_descending(&keys);
    let mut out: Vec<Mention> = Vec::new();
    let mut n: usize = 0;
    let ghost goal = by_start(found);
    while n < order.len()
        invariant
            n <= order@.len(),
            order@.len() == best@.len(),
            found == rows(best@),
            goal == by_start(found),
            positions(order@) == ranking(Seq::new(found.len(), |i: int| -(found[i].start as int))),
            forall|i: int| 0 <= i < order@.len() ==> #[trigger] order@[i] < best@.len(),
            rows(out@) == goal.take(n as int),
        decreases order.len() - n,
    {
        assert(order@[n as int] < best@.len());
        let ghost done = rows(out@);
        assert(goal[n as int] == found[positions(order@)[n as int]]);
        out.push(best[order[n]].dup());
        assert(rows(out@) =~= done.push(goal[n as int]));
        assert(goal.take(n + 1) =~= done.push(goal[n as int]));
        n += 1;
    }
    assert(goal.take(n as int) =~= goal);
    out
}

// ---------------------------------------------------------------------------------------------
// Chunks

/// The white space of ASCII.
pub open spec fn is_ascii_space(c: char) -> bool {
    c == ' ' || c == '\t' || c == '\n' || c == '\u{c}' || c == '\r'
}

/// A sentence ends with the first scalar value of `s`: it is a full stop, a mark or a line end,
/// and white space or the end of the text follows.
pub open spec fn ends_sentence(s: Seq<char>) -> bool {
    &&& s[0] == '.' || s[0] == '!' || s[0] == '?' || s[0] == '\n'
    &&& s.len() == 1 || is_ascii_space(s[1])
}

/// The sentences of `cur + s`, where `cur` is the beginning of the one that `s` continues.
pub open spec fn sentences_from(cur: Seq<char>, s: Seq<char>) -> Seq<Seq<char>>
    decreases s.len(),
{
    if s.len() == 0 {
        if cur.len() == 0 {
            seq![]
        } else {
            seq![cur]
        }
    } else if ends_sentence(s) {
        seq![cur.push(s[0])] + sentences_from(seq![], s.drop_first())
    } else {
        sentences_from(cur.push(s[0]), s.drop_first())
    }
}

/// The sentences of a text, each with what ends it.
pub open spec fn sentences(s: Seq<char>) -> Seq<Seq<char>> {
    sentences_from(seq![], s)
}

/// The texts one after the other.
pub open spec fn concat(parts: Seq<Seq<char>>) -> Seq<char>
    decreases parts.len(),
{
    if parts.len() == 0 {
        seq![]
    } else {
        parts[0] + concat(parts.drop_first())
    }
}

proof fn lemma_sentences_from(cur: Seq<char>, s: Seq<char>)
    ensures
        concat(sentences_from(cur, s)) == cur + s,
        forall|i: int|
            0 <= i < sentences_from(cur, s).len() ==> (#[trigger] sentences_from(cur, s)[i]).len()
                > 0,
    decreases s.len(),
{
    let r = sentences_from(cur, s);
    if s.len() == 0 {
        assert(cur + s =~= cur);
        if cur.len() > 0 {
            assert(r == seq![cur]);
            assert(r.drop_first() =~= seq![]);
            assert(concat(r.drop_first()) =~= seq![]);
            assert(concat(r) =~= cur);
        } else {
            assert(concat(r) =~= cur);
        }
    } else if ends_sentence(s) {
        lemma_sentences_from(seq![], s.drop_first());
        let rest = sentences_from(seq![], s.drop_first());
        assert(r == seq![cur.push(s[0])] + rest);
        assert(r.drop_first() =~= rest);
        assert(concat(r) =~= cur + s);
        assert forall|i: int| 0 <= i < r.len() implies (#[trigger] r[i]).len() > 0 by {
            if i > 0 {
                assert(r[i] == rest[i - 1]);
            }
        }
    } else {
        lemma_sentences_from(cur.push(s[0]), s.drop_first());
        assert(r == sentences_from(cur.push(s[0]), s.drop_first()));
        assert(cur.push(s[0]) + s.drop_first() =~= cur + s);
    }
}

/// Splitting into sentences loses nothing: they make up the text, and none is empty.
pub proof fn law_sentences_are_the_text(s: Seq<char>)
    ensures
        concat(sentences(s)) == s,
        forall|i: int| 0 <= i < sentences(s).len() ==> (#[trigger] sentences(s)[i]).len() > 0,
{
    lemma_sentences_from(seq![], s);
    assert(Seq::<char>::empty() + s =~= s);
}

fn ascii_space(c: char) -> (r: bool)
    ensures
        r == is_ascii_space(c),
{
    c == ' ' || c == '\t' || c == '\n' || c == '\u{c}' || c == '\r'
}

pub fn split_sentences(text: &str) -> (r: Vec<String>)
    ensures
        views(r@) == sentences(text@),
{
    let cs = chars_of(text);
    let mut out: Vec<String> = Vec::new();
    let mut cur = String::new();
    let mut fresh = true;
    let mut i: usize = 0;
    assert(cs@.skip(0) =~= cs@);
    assert(cur@ =~= Seq::<char>::empty());
    assert(views(out@) + sentences_from(cur@, cs@) =~= sentences(cs@));
    while i < cs.len()
        invariant
            i <= cs@.len(),
            cs@ == text@,
            fresh == (cur@.len() == 0),
            views(out@) + sentences_from(cur@, cs@.skip(i as int)) == sentences(text@),
        decreases cs.len() - i,
    {
        let c = cs[i];
        let ghost rest = cs@.skip(i as int);
        let ghost done = views(out@);
        let ghost run = cur@;
        assert(rest[0] == c);
        assert(rest.drop_first() =~= cs@.skip(i + 1));
        let end = (c == '.' || c == '!' || c == '?' || c == '\n') && (i + 1 == cs.len()
            || ascii_space(cs[i + 1]));
        assert(end == ends_sentence(rest));
        cur.push(c);
        fresh = false;
        if end {
            out.push(cur);
            cur = String::new();
            fresh = true;
            proof {
                assert(views(out@) =~= done.push(run.push(c)));
                assert(cur@ =~= Seq::<char>::empty());
                assert(done + (seq![run.push(c)] + sentences_from(seq![], cs@.skip(i + 1)))
                    =~= done.push(run.push(c)) + sentences_from(seq![], cs@.skip(i + 1)));
            }
        }
        i += 1;
    }
    let ghost done = views(out@);
    let ghost run = cur@;
    if !fresh {
        out.push(cur);
        assert(views(out@) =~= done + seq![run]);
    }
    assert(views(out@) =~= sentences(text@));
    out
}

/// The place after the last white space among the first `n` scalar values, 0 where there is
/// none.
pub open spec fn last_gap(s: Seq<char>, n: int) -> int
    decreases n,
{
    if n <= 0 {
        0
    } else if is_ascii_space(s[n - 1]) {
        n
    } else {
        last_gap(s, n - 1)
    }
}

/// Where a text that is longer than `max` is cut: after the last white space that keeps to the
/// limit, or at the limit.
pub open spec fn cut_at(s: Seq<char>, max: int) -> int {
    if last_gap(s, max) > 0 {
        last_gap(s, max)
    } else {
        max
    }
}

pub proof fn lemma_last_gap(s: Seq<char>, n: int)
    ensures
        n >= 0 ==> 0 <= last_gap(s, n) <= n,
    decreases n,
{
    if n > 0 && !is_ascii_space(s[n - 1]) {
        lemma_last_gap(s, n - 1);
    }
}

/// A text in parts of at most `max` scalar values, where `max` is positive.
pub open spec fn cut_up(s: Seq<char>, max: int) -> Seq<Seq<char>>
    decreases s.len(),
{
    if max <= 0 || s.len() <= max {
        seq![s]
    } else {
        proof {
            lemma_last_gap(s, max);
        }
        let n = cut_at(s, max);
        seq![s.take(n)] + cut_up(s.skip(n), max)
    }
}

/// The sentences, those that are too long cut up.
pub open spec fn fitting(ss: Seq<Seq<char>>, max: int) -> Seq<Seq<char>>
    decreases ss.len(),
{
    if ss.len() == 0 {
        seq![]
    } else {
        fitting(ss.drop_last(), max) + cut_up(ss.last(), max)
    }
}

proof fn lemma_concat_append(a: Seq<Seq<char>>, b: Seq<Seq<char>>)
    ensures
        concat(a + b) == concat(a) + concat(b),
    decreases a.len(),
{
    if a.len() == 0 {
        assert(a + b =~= b);
        assert(concat(a) + concat(b) =~= concat(b));
    } else {
        lemma_concat_append(a.drop_first(), b);
        assert((a + b).drop_first() =~= a.drop_first() + b);
        assert(concat(a + b) =~= concat(a) + concat(b));
    }
}

proof fn lemma_cut_up(s: Seq<char>, max: int)
    requires
        s.len() > 0,
    ensures
        concat(cut_up(s, max)) == s,
        all_within(cut_up(s, max), max),
    decreases s.len(),
{
    let r = cut_up(s, max);
    if max <= 0 || s.len() <= max {
        assert(r.drop_first() =~= seq![]);
        assert(concat(r.drop_first()) =~= seq![]);
        assert(concat(r) =~= s);
    } else {
        lemma_last_gap(s, max);
        let n = cut_at(s, max);
        let rest = cut_up(s.skip(n), max);
        lemma_cut_up(s.skip(n), max);
        assert(r.drop_first() =~= rest);
        assert(concat(r) =~= s.take(n) + s.skip(n));
        assert(s.take(n) + s.skip(n) =~= s);
        assert forall|i: int| 0 <= i < r.len() implies fits(#[trigger] r[i], max) by {
            if i > 0 {
                assert(r[i] == rest[i - 1]);
                assert(fits(rest[i - 1], max));
            }
        }
    }
}

/// The text is not empty and keeps to the limit, where the limit is positive.
pub open spec fn fits(s: Seq<char>, max: int) -> bool {
    s.len() > 0 && (max >= 1 ==> s.len() <= max)
}

pub open spec fn all_within(ss: Seq<Seq<char>>, max: int) -> bool {
    forall|i: int| 0 <= i < ss.len() ==> fits(#[trigger] ss[i], max)
}

proof fn lemma_fitting(ss: Seq<Seq<char>>, max: int)
    requires
        forall|i: int| 0 <= i < ss.len() ==> (#[trigger] ss[i]).len() > 0,
    ensures
        concat(fitting(ss, max)) == concat(ss),
        all_within(fitting(ss, max), max),
    decreases ss.len(),
{
    if ss.len() > 0 {
        let most = ss.drop_last();
        let last = ss.last();
        assert(last == ss[ss.len() - 1]);
        lemma_fitting(most, max);
        lemma_cut_up(last, max);
        lemma_concat_append(fitting(most, max), cut_up(last, max));
        lemma_concat_append(most, seq![last]);
        assert(most + seq![last] =~= ss);
        assert(seq![last].drop_first() =~= seq![]);
        assert(concat(seq![last].drop_first()) =~= seq![]);
        assert(concat(seq![last]) =~= last);
        let (a, b) = (fitting(most, max), cut_up(last, max));
        assert forall|i: int| 0 <= i < (a + b).len() implies fits(#[trigger] (a + b)[i], max) by {
            if i < a.len() {
                assert(fits(a[i], max));
            } else {
                assert(fits(b[i - a.len()], max));
            }
        }
    }
}

/// Puts the parts of one sentence after those of the ones before.
fn cut_into(s: &str, max: usize, out: &mut Vec<String>)
    requires
        s@.len() > 0,
    ensures
        views(final(out)@) == views(old(out)@) + cut_up(s@, max as int),
{
    let cs = chars_of(s);
    let ghost all = cut_up(s@, max as int);
    let mut from: usize = 0;
    assert(cs@.skip(0) =~= s@);
    assert(views(out@) + cut_up(cs@.skip(0), max as int) =~= views(out@) + all);
    while max > 0 && cs.len() - from > max
        invariant
            from <= cs@.len(),
            cs@ == s@,
            all == cut_up(s@, max as int),
            views(out@) + cut_up(cs@.skip(from as int), max as int) == views(old(out)@) + all,
        decreases cs.len() - from,
    {
        let ghost rest = cs@.skip(from as int);
        let ghost done = views(out@);
        proof {
            lemma_last_gap(rest, max as int);
        }
        let mut n: usize = max;
        while n > 0 && !ascii_space(cs[from + n - 1])
            invariant
                n <= max,
                from + max < cs.len(),
                cs.len() <= usize::MAX,
                rest == cs@.skip(from as int),
                last_gap(rest, n as int) == last_gap(rest, max as int),
            decreases n,
        {
            assert(rest[n - 1] == cs@[from + n - 1]);
            n -= 1;
        }
        if n > 0 {
            assert(rest[n - 1] == cs@[from + n - 1]);
        } else {
            n = max;
        }
        let part = sub_chars(&cs, from, from + n);
        assert(part@ =~= rest.take(n as int));
        assert(rest.skip(n as int) =~= cs@.skip(from + n));
        out.push(string_of(&part));
        assert(views(out@) =~= done.push(part@));
        assert(done + (seq![part@] + cut_up(cs@.skip(from + n), max as int)) =~= done.push(part@)
            + cut_up(cs@.skip(from + n), max as int));
        from += n;
    }
    let ghost done = views(out@);
    let part = sub_chars(&cs, from, cs.len());
    assert(part@ =~= cs@.skip(from as int));
    out.push(string_of(&part));
    assert(views(out@) =~= done.push(part@));
    assert(views(out@) =~= done + cut_up(cs@.skip(from as int), max as int));
}

fn fit(ss: &Vec<String>, max: usize) -> (r: Vec<String>)
    requires
        forall|i: int| 0 <= i < ss@.len() ==> (#[trigger] views(ss@)[i]).len() > 0,
    ensures
        views(r@) == fitting(views(ss@), max as int),
{
    let mut out: Vec<String> = Vec::new();
    let mut i: usize = 0;
    let ghost sv = views(ss@);
    assert(sv.take(0) =~= seq![]);
    assert(views(out@) =~= seq![]);
    while i < ss.len()
        invariant
            i <= ss@.len(),
            sv == views(ss@),
            forall|i: int| 0 <= i < ss@.len() ==> (#[trigger] views(ss@)[i]).len() > 0,
            views(out@) == fitting(sv.take(i as int), max as int),
        decreases ss.len() - i,
    {
        assert(sv.take(i + 1).drop_last() =~= sv.take(i as int));
        assert(sv.take(i + 1).last() == sv[i as int]);
        assert(views(ss@)[i as int].len() > 0);
        cut_into(ss[i].as_str(), max, &mut out);
        i += 1;
    }
    assert(sv.take(i as int) =~= sv);
    out
}

/// The texts of which chunks are made: the sentences of a text, those that exceed the limit cut
/// up.
pub open spec fn chunk_parts(text: Seq<char>, max: int) -> Seq<Seq<char>> {
    fitting(sentences(text), max)
}

/// The sentences packed into chunks, with the offset of each: a sentence goes to the next chunk
/// where it would make the current one too long.
pub open spec fn packed(
    ss: Seq<Seq<char>>,
    max: int,
    cur: Seq<char>,
    start: int,
    pos: int,
) -> Seq<(int, Seq<char>)>
    decreases ss.len(),
{
    if ss.len() == 0 {
        if trim(cur).len() > 0 {
            seq![(start, cur)]
        } else {
            seq![]
        }
    } else {
        let s = ss[0];
        let rest = ss.drop_first();
        let next = pos + s.len();
        if cur.len() > 0 && cur.len() + s.len() > max {
            seq![(start, cur)] + packed(rest, max, s, pos, next)
        } else {
            packed(
                rest,
                max,
                cur + s,
                if cur.len() == 0 {
                    pos
                } else {
                    start
                },
                next,
            )
        }
    }
}

/// The chunks that hold more than white space.
pub open spec fn not_blank(cs: Seq<(int, Seq<char>)>) -> Seq<(int, Seq<char>)>
    decreases cs.len(),
{
    if cs.len() == 0 {
        seq![]
    } else if trim(cs.last().1).len() == 0 {
        not_blank(cs.drop_last())
    } else {
        not_blank(cs.drop_last()).push(cs.last())
    }
}

/// The chunks of a text, each with its offset.
pub open spec fn chunks(text: Seq<char>, max: int) -> Seq<(int, Seq<char>)> {
    not_blank(packed(chunk_parts(text, max), max, seq![], 0, 0))
}

/// What a list of chunks holds.
pub open spec fn chunk_views(v: Seq<(usize, String)>) -> Seq<(int, Seq<char>)> {
    Seq::new(v.len(), |i: int| (v[i].0 as int, v[i].1@))
}

/// A chunk is the part of the text at its offset, and it keeps to the limit where that is
/// positive.
pub open spec fn chunk_ok(c: (int, Seq<char>), text: Seq<char>, max: int) -> bool {
    &&& 0 <= c.0
    &&& c.0 + c.1.len() <= text.len()
    &&& text.subrange(c.0, c.0 + c.1.len()) == c.1
    &&& max >= 1 ==> c.1.len() <= max
}

pub open spec fn chunks_ok(cs: Seq<(int, Seq<char>)>, text: Seq<char>, max: int) -> bool {
    forall|i: int| 0 <= i < cs.len() ==> chunk_ok(#[trigger] cs[i], text, max)
}

/// The chunks stand one after the other, from `from` on.
pub open spec fn in_line(cs: Seq<(int, Seq<char>)>, from: int) -> bool {
    &&& forall|i: int| 0 <= i < cs.len() ==> from <= (#[trigger] cs[i]).0
    &&& forall|i: int, j: int|
        0 <= i < j < cs.len() ==> (#[trigger] cs[i]).0 + cs[i].1.len() <= (#[trigger] cs[j]).0
}

pub open spec fn holds(c: (int, Seq<char>), p: int) -> bool {
    c.0 <= p < c.0 + c.1.len()
}

/// Only white space stands in none of the chunks, from `from` on.
pub open spec fn covers(cs: Seq<(int, Seq<char>)>, text: Seq<char>, from: int) -> bool {
    forall|p: int|
        from <= p < text.len() && !is_space(#[trigger] text[p]) ==> exists|i: int|
            0 <= i < cs.len() && holds(#[trigger] cs[i], p)
}

proof fn lemma_start_trimmed(s: Seq<char>, p: int)
    requires
        0 <= p < s.len(),
        !is_space(s[p]),
    ensures
        trim_start(s).contains(s[p]),
    decreases s.len(),
{
    if is_space(s[0]) {
        lemma_start_trimmed(s.drop_first(), p - 1);
    } else {
        assert(trim_start(s)[p] == s[p]);
    }
}

proof fn lemma_end_trimmed(s: Seq<char>, p: int)
    requires
        0 <= p < s.len(),
        !is_space(s[p]),
    ensures
        trim_end(s).len() > 0,
    decreases s.len(),
{
    if is_space(s.last()) {
        lemma_end_trimmed(s.drop_last(), p);
    }
}

proof fn lemma_blank(s: Seq<char>, p: int)
    requires
        trim(s).len() == 0,
        0 <= p < s.len(),
    ensures
        is_space(s[p]),
{
    if !is_space(s[p]) {
        lemma_start_trimmed(s, p);
        let t = trim_start(s);
        let q = choose|q: int| 0 <= q < t.len() && t[q] == s[p];
        lemma_end_trimmed(t, q);
    }
}

proof fn lemma_packed(
    text: Seq<char>,
    ss: Seq<Seq<char>>,
    max: int,
    cur: Seq<char>,
    start: int,
    pos: int,
)
    requires
        0 <= pos <= text.len(),
        text.skip(pos) == concat(ss),
        all_within(ss, max),
        0 <= start,
        cur.len() > 0 ==> start + cur.len() == pos && text.subrange(start, pos) == cur,
        cur.len() > 0 ==> fits(cur, max),
        max >= 0,
    ensures
        ({
            let r = packed(ss, max, cur, start, pos);
            let from = if cur.len() == 0 {
                pos
            } else {
                start
            };
            chunks_ok(r, text, max) && in_line(r, from) && covers(r, text, from)
        }),
    decreases ss.len(),
{
    let r = packed(ss, max, cur, start, pos);
    if ss.len() == 0 {
        assert(text.skip(pos).len() == 0);
        if trim(cur).len() > 0 {
            assert(cur.len() > 0) by {
                if cur.len() == 0 {
                    assert(trim(cur) =~= seq![]);
                }
            }
            assert(r == seq![(start, cur)]);
            assert(r[0] == (start, cur));
            assert forall|p: int|
                start <= p < text.len() && !is_space(#[trigger] text[p]) implies exists|i: int|
                0 <= i < r.len() && holds(#[trigger] r[i], p) by {
                assert(holds(r[0], p));
            }
        } else if cur.len() > 0 {
            assert forall|p: int| start <= p < text.len() implies is_space(
                #[trigger] text[p],
            ) by {
                assert(cur[p - start] == text[p]);
                lemma_blank(cur, p - start);
            }
        }
    } else {
        let s = ss[0];
        let rest = ss.drop_first();
        let next = pos + s.len();
        assert(concat(ss) == s + concat(rest));
        assert(text.skip(pos).len() == s.len() + concat(rest).len());
        assert(text.skip(next) =~= text.skip(pos).skip(s.len() as int));
        assert(text.skip(pos).skip(s.len() as int) =~= concat(rest));
        assert(text.subrange(pos, next) =~= text.skip(pos).take(s.len() as int));
        assert(text.subrange(pos, next) =~= s);
        assert(fits(ss[0], max));
        assert forall|i: int| 0 <= i < rest.len() implies fits(#[trigger] rest[i], max) by {
            assert(fits(ss[i + 1], max));
        }
        if cur.len() > 0 && cur.len() + s.len() > max {
            lemma_packed(text, rest, max, s, pos, next);
            let tail = packed(rest, max, s, pos, next);
            assert(r == seq![(start, cur)] + tail);
            assert(r[0] == (start, cur));
            assert forall|i: int| 0 < i < r.len() implies #[trigger] r[i] == tail[i - 1] by {}
            assert forall|p: int|
                start <= p < text.len() && !is_space(#[trigger] text[p]) implies exists|i: int|
                0 <= i < r.len() && holds(#[trigger] r[i], p) by {
                if p < pos {
                    assert(holds(r[0], p));
                } else {
                    let i = choose|i: int| 0 <= i < tail.len() && holds(#[trigger] tail[i], p);
                    assert(holds(r[i + 1], p));
                }
            }
        } else {
            let begin = if cur.len() == 0 {
                pos
            } else {
                start
            };
            if cur.len() == 0 {
                assert(cur + s =~= s);
            } else {
                assert(text.subrange(begin, next) =~= text.subrange(start, pos) + text.subrange(
                    pos,
                    next,
                ));
            }
            lemma_packed(text, rest, max, cur + s, begin, next);
            assert(r == packed(rest, max, cur + s, begin, next));
        }
    }
}

proof fn lemma_not_blank(cs: Seq<(int, Seq<char>)>, text: Seq<char>, max: int)
    requires
        chunks_ok(cs, text, max),
        in_line(cs, 0),
    ensures
        chunks_ok(not_blank(cs), text, max),
        in_line(not_blank(cs), 0),
        forall|i: int| 0 <= i < not_blank(cs).len() ==> cs.contains(#[trigger] not_blank(cs)[i]),
        forall|i: int, p: int|
            0 <= i < cs.len() && #[trigger] holds(cs[i], p) && !is_space(text[p])
                ==> not_blank(cs).contains(cs[i]),
    decreases cs.len(),
{
    if cs.len() > 0 {
        let most = cs.drop_last();
        let n = cs.len() - 1;
        assert forall|i: int| 0 <= i < most.len() implies chunk_ok(
            #[trigger] most[i],
            text,
            max,
        ) by {
            assert(chunk_ok(cs[i], text, max));
        }
        assert(in_line(most, 0));
        lemma_not_blank(most, text, max);
        assert(chunk_ok(cs[n], text, max));
        let (a, b) = (not_blank(most), not_blank(cs));
        let blank = trim(cs.last().1).len() == 0;
        assert(b == if blank { a } else { a.push(cs[n]) });
        assert forall|i: int| 0 <= i < a.len() implies cs.contains(#[trigger] a[i]) && a[i].0
            + a[i].1.len() <= cs[n].0 by {
            assert(most.contains(a[i]));
            let k = choose|k: int| 0 <= k < most.len() && most[k] == a[i];
            assert(cs[k] == a[i]);
        }
        assert forall|i: int| 0 <= i < b.len() implies cs.contains(#[trigger] b[i]) by {
            if i < a.len() {
                assert(b[i] == a[i]);
            } else {
                assert(b[i] == cs[n]);
            }
        }
        assert forall|i: int, p: int|
            0 <= i < cs.len() && #[trigger] holds(cs[i], p) && !is_space(
                text[p],
            ) implies b.contains(cs[i]) by {
            if i < n {
                assert(holds(most[i], p));
                assert(a.contains(most[i]));
                let k = choose|k: int| 0 <= k < a.len() && a[k] == most[i];
                assert(b[k] == cs[i]);
            } else {
                let c = cs[n];
                assert(c.1[p - c.0] == text.subrange(c.0, c.0 + c.1.len())[p - c.0]);
                if blank {
                    lemma_blank(c.1, p - c.0);
                }
                assert(b[b.len() - 1] == c);
            }
        }
    }
}

/// Chunks are parts of the text at their offsets and keep to the limit, where that is positive;
/// they stand one after the other, and only white space is lost between them.
pub proof fn law_chunks_are_parts_within_limit(text: Seq<char>, max: int)
    requires
        max >= 0,
    ensures
        chunks_ok(chunks(text, max), text, max),
        in_line(chunks(text, max), 0),
        covers(chunks(text, max), text, 0),
{
    let ss = chunk_parts(text, max);
    let all = packed(ss, max, seq![], 0, 0);
    let r = chunks(text, max);
    law_sentences_are_the_text(text);
    lemma_fitting(sentences(text), max);
    assert(text.skip(0) =~= text);
    lemma_packed(text, ss, max, seq![], 0, 0);
    lemma_not_blank(all, text, max);
    assert forall|p: int|
        0 <= p < text.len() && !is_space(#[trigger] text[p]) implies exists|i: int|
        0 <= i < r.len() && holds(#[trigger] r[i], p) by {
        let i = choose|i: int| 0 <= i < all.len() && holds(#[trigger] all[i], p);
        assert(r.contains(all[i]));
        let k = choose|k: int| 0 <= k < r.len() && r[k] == all[i];
        assert(holds(r[k], p));
    }
}

fn is_blank(s: &str) -> (r: bool)
    ensures
        r == (trim(s@).len() == 0),
{
    trim_chars(&chars_of(s)).len() == 0
}

proof fn lemma_concat_len(parts: Seq<Seq<char>>, i: int)
    requires
        0 <= i < parts.len(),
    ensures
        concat(parts.skip(i)).len() == parts[i].len() + concat(parts.skip(i + 1)).len(),
{
    assert(parts.skip(i)[0] == parts[i]);
    assert(parts.skip(i).drop_first() =~= parts.skip(i + 1));
}

/// Splits on paragraph and sentence boundaries into chunks of at most `max_chars` characters,
/// returning (character offset of the chunk's start, chunk text).
pub fn chunk_text(text: &str, max_chars: usize) -> (r: Vec<(usize, String)>)
    ensures
        chunk_views(r@) == chunks(text@, max_chars as int),
        max_chars >= 1 ==> forall|i: int| 0 <= i < r@.len() ==> (#[trigger] r@[i]).1@.len()
            <= max_chars,
{
    let cs = chars_of(text);
    let total = cs.len();
    proof {
        law_sentences_are_the_text(text@);
        lemma_fitting(sentences(text@), max_chars as int);
    }
    let ss = fit(&split_sentences(text), max_chars);
    let ghost sv = chunk_parts(text@, max_chars as int);
    let ghost max = max_chars as int;
    let mut all: Vec<(usize, String)> = Vec::new();
    let mut current = String::new();
    let mut current_len: usize = 0;
    let mut current_start: usize = 0;
    let mut pos: usize = 0;
    let mut i: usize = 0;
    proof {
        assert(sv.skip(0) =~= sv);
        assert(current@ =~= Seq::<char>::empty());
        assert(chunk_views(all@) + packed(sv, max, seq![], 0, 0) =~= packed(sv, max, seq![], 0, 0));
    }
    while i < ss.len()
        invariant
            i <= ss@.len(),
            views(ss@) == sv,
            max == max_chars,
            current_len == current@.len(),
            current_len <= pos,
            pos + concat(sv.skip(i as int)).len() == total,
            chunk_views(all@) + packed(
                sv.skip(i as int),
                max,
                current@,
                current_start as int,
                pos as int,
            ) == packed(sv, max, seq![], 0, 0),
        decreases ss.len() - i,
    {
        let ghost here = sv.skip(i as int);
        let ghost done = chunk_views(all@);
        let ghost cur = current@;
        let ghost start0 = current_start as int;
        let ghost pos0 = pos as int;
        proof {
            lemma_concat_len(sv, i as int);
            assert(here[0] == ss@[i as int]@);
            assert(here.drop_first() =~= sv.skip(i + 1));
        }
        let len = chars_of(ss[i].as_str()).len();
        if current_len > 0 && (len > max_chars || current_len > max_chars - len) {
            all.push((current_start, current));
            current = ss[i].clone();
            current_len = len;
            current_start = pos;
            proof {
                assert(chunk_views(all@) =~= done.push((start0, cur)));
                let tail = packed(sv.skip(i + 1), max, current@, pos0, pos0 + len);
                assert(done + (seq![(start0, cur)] + tail) =~= done.push((start0, cur)) + tail);
            }
        } else {
            if current_len == 0 {
                current_start = pos;
            }
            current.append(ss[i].as_str());
            current_len += len;
        }
        pos += len;
        i += 1;
    }
    let ghost done = chunk_views(all@);
    let ghost cur = current@;
    let ghost start0 = current_start as int;
    if !is_blank(current.as_str()) {
        all.push((current_start, current));
        assert(chunk_views(all@) =~= done + seq![(start0, cur)]);
    }
    let ghost pk = packed(sv, max, seq![], 0, 0);
    assert(sv.skip(i as int) =~= seq![]);
    assert(chunk_views(all@) =~= pk);
    let mut out: Vec<(usize, String)> = Vec::new();
    let mut j: usize = 0;
    assert(pk.take(0) =~= seq![]);
    assert(chunk_views(out@) =~= seq![]);
    while j < all.len()
        invariant
            j <= all@.len(),
            pk == chunk_views(all@),
            chunk_views(out@) == not_blank(pk.take(j as int)),
        decreases all.len() - j,
    {
        assert(pk.take(j + 1).drop_last() =~= pk.take(j as int));
        assert(pk.take(j + 1).last() == pk[j as int]);
        let ghost kept = chunk_views(out@);
        if !is_blank(all[j].1.as_str()) {
            out.push((all[j].0, all[j].1.clone()));
            assert(chunk_views(out@) =~= kept.push(pk[j as int]));
        }
        j += 1;
    }
    assert(pk.take(j as int) =~= pk);
    proof {
        law_chunks_are_parts_within_limit(text@, max);
        let r = chunks(text@, max);
        assert forall|i: int| max >= 1 && 0 <= i < out@.len() implies (#[trigger] out@[i]).1@.len()
            <= max by {
            assert(chunk_ok(r[i], text@, max));
            assert(chunk_views(out@)[i] == r[i]);
        }
    }
    out
}

} // verus!
