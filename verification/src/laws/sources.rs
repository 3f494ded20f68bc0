//! Sources: what the adapters make of feeds and pages, and how a model is reached and read.

use vstd::prelude::*;

use crate::adapters::body::{
    blocks, body_of, decoded, is_block, is_readable, page_blocks, tag_scan, untagged, TagScan,
};
use crate::adapters::gdelt::{article_item, article_items, ArticleModel};
use crate::adapters::pulse_reader::{latest, pulse_item, pulse_items, PulseModel};
use crate::adapters::rss::{
    feed_from, feed_step, href, local_name, outside_tags, raw_of, FeedModel, ScanModel, XmlModel,
};
use crate::adapters::usgs::{
    coordinates, feed_names, instant_text, millis_instant, quake, quakes,
};
use crate::json::{double_in, integer_in, item_at, Json};
use crate::llm::{
    answer_in, block_end, brace_begin, json_object, object_from, opens_block, or_default,
    provider_of, settings_for, without_slashes, BraceState, Provider,
};
use crate::text::{alphanumeric, ascii_lower, before, joined, occurs, trim, words};

verus! {

// ---------------------------------------------------------------------------------------------
// Feeds

/// What an item of a feed becomes: an item under its own link, or that of the feed where it has
/// none, with its title where it has one and its text without tags.
pub proof fn law_feed_items_become_raw(url: Seq<char>, it: FeedModel)
    ensures
        ({
            let r = raw_of(url, it);
            &&& r.source_type == "rss"@
            &&& it.link.len() > 0 ==> r.source_ref == it.link
            &&& it.link.len() == 0 ==> r.source_ref == url
            &&& it.title.len() > 0 ==> r.title == Some(it.title)
            &&& it.title.len() == 0 ==> r.title is None
            &&& r.text == joined(words(outside_tags(it.text).0), " "@)
            &&& r.license_class == "unknown"@
            &&& r.published_at is None
        }),
{
}

/// How a feed is read. An item begins empty and is there when it ends; what stands outside of items
/// is not read; in an item its title, link and text are gathered, the text from any of the tags
/// that hold one, and a link also from its address.
pub proof fn law_feed_is_read_item_by_item(
    st: ScanModel,
    name: Seq<char>,
    attrs: Seq<(Seq<char>, Seq<char>)>,
    text: Seq<char>,
)
    ensures
        ({
            let tag = local_name(name);
            let item = tag == "item"@ || tag == "entry"@;
            let open = feed_step(st, XmlModel::Open(name, attrs));
            let close = feed_step(st, XmlModel::Close(name));
            let read = feed_step(st, XmlModel::Text(text));
            let (was, is) = (st.current, read.current);
            let (k, t) = (st.tag, st.in_item);
            &&& open.tag == tag
            &&& open.items == st.items
            &&& item ==> open.in_item && open.current.title.len() == 0 && open.current.text.len()
                == 0
            &&& !item ==> open.in_item == st.in_item
            &&& tag == "link"@ && st.in_item && !item && href(attrs) is Some ==> open.current.link
                == href(attrs)->0
            &&& item ==> close.items == st.items.push(st.current) && !close.in_item
            &&& !item ==> close == st
            &&& !t ==> read == st
            &&& read.items == st.items && read.in_item == st.in_item && read.tag == st.tag
            &&& t && k == "title"@ ==> is.title == was.title + text && is.link == was.link && is.text
                == was.text
            &&& t && k == "link"@ && k != "title"@ ==> is.link == was.link + text && is.title
                == was.title && is.text == was.text
            &&& t && (k == "description"@ || k == "summary"@ || k == "content"@) && k != "title"@
                && k != "link"@ ==> is.text == was.text + text && is.title == was.title && is.link
                == was.link
            &&& t && k != "title"@ && k != "link"@ && k != "description"@ && k != "summary"@ && k
                != "content"@ ==> is == was
        }),
{
    let tag = local_name(name);
    if tag == "link"@ {
        reveal_strlit("link");
        reveal_strlit("item");
        reveal_strlit("entry");
        assert("link"@.len() == 4 && "entry"@.len() == 5 && "link"@[0] == 'l' && "item"@[0] == 'i');
    }
}

/// What character data is read from, besides what text is read from: the encoded content.
pub proof fn law_feed_reads_character_data(st: ScanModel, text: Seq<char>)
    requires
        st.in_item,
    ensures
        ({
            let (plain, raw) = (
                feed_step(st, XmlModel::Text(text)).current,
                feed_step(st, XmlModel::Raw(text)).current,
            );
            &&& st.tag != "encoded"@ ==> raw == plain
            &&& st.tag == "encoded"@ && st.tag != "title"@ && st.tag != "link"@ ==> raw.text
                == st.current.text + text
        }),
{
}

/// A feed that is broken off or not well formed gives nothing, and one that ends gives the items
/// that were closed before.
pub proof fn law_feed_ends_well(st: ScanModel, e: XmlModel, rest: Seq<XmlModel>)
    ensures
        feed_from(st, seq![]) is None,
        feed_from(st, seq![XmlModel::Fault] + rest) is None,
        feed_from(st, seq![XmlModel::End] + rest) == Some(st.items),
        e != XmlModel::End && e != XmlModel::Fault ==> feed_from(st, seq![e] + rest) == feed_from(
            feed_step(st, e),
            rest,
        ),
{
    assert((seq![e] + rest).drop_first() =~= rest);
    assert((seq![e] + rest)[0] == e);
    assert((seq![XmlModel::End] + rest)[0] == XmlModel::End);
    assert((seq![XmlModel::Fault] + rest)[0] == XmlModel::Fault);
}

/// Nothing of a tag is left, and all that stands outside of tags is.
pub proof fn law_only_tags_are_stripped(a: Seq<char>, x: Seq<char>)
    requires
        forall|i: int| 0 <= i < x.len() ==> #[trigger] x[i] != '<' && x[i] != '>',
    ensures
        outside_tags(x) == (x, false),
        !outside_tags(a).1 ==> outside_tags(a + x) == (outside_tags(a).0 + x, false),
        !outside_tags(a).1 ==> outside_tags(a + seq!['<'] + x + seq!['>']) == (
            outside_tags(a).0,
            false,
        ),
    decreases x.len(),
{
    let none = Seq::<char>::empty();
    assert(outside_tags(none) == (none, false));
    lemma_outside(none, x);
    assert(none + x =~= x);
    lemma_outside(a, x);
    let b = a + seq!['<'];
    assert(b.drop_last() =~= a);
    lemma_inside(b, x);
    let c = b + x + seq!['>'];
    assert(c.drop_last() =~= b + x);
}

proof fn lemma_outside(a: Seq<char>, x: Seq<char>)
    requires
        forall|i: int| 0 <= i < x.len() ==> #[trigger] x[i] != '<' && x[i] != '>',
    ensures
        !outside_tags(a).1 ==> outside_tags(a + x) == (outside_tags(a).0 + x, false),
    decreases x.len(),
{
    if x.len() == 0 {
        assert(a + x =~= a);
        assert(outside_tags(a).0 + x =~= outside_tags(a).0);
    } else {
        let most = x.drop_last();
        assert forall|i: int| 0 <= i < most.len() implies #[trigger] most[i] != '<' && most[i]
            != '>' by {
            assert(most[i] == x[i]);
        }
        lemma_outside(a, most);
        assert((a + x).drop_last() =~= a + most);
        assert((a + x).last() == x.last());
        assert(x.last() == x[x.len() - 1]);
        assert((outside_tags(a).0 + most).push(x.last()) =~= outside_tags(a).0 + x);
    }
}

proof fn lemma_inside(b: Seq<char>, x: Seq<char>)
    requires
        forall|i: int| 0 <= i < x.len() ==> #[trigger] x[i] != '<' && x[i] != '>',
        outside_tags(b).1,
    ensures
        outside_tags(b + x) == (outside_tags(b).0, true),
    decreases x.len(),
{
    if x.len() == 0 {
        assert(b + x =~= b);
    } else {
        let most = x.drop_last();
        assert forall|i: int| 0 <= i < most.len() implies #[trigger] most[i] != '<' && most[i]
            != '>' by {
            assert(most[i] == x[i]);
        }
        lemma_inside(b, most);
        assert((b + x).drop_last() =~= b + most);
        assert((b + x).last() == x.last());
        assert(x.last() == x[x.len() - 1]);
    }
}

// ---------------------------------------------------------------------------------------------
// Pages

/// A tag of a block of text becomes a line break.
pub open spec fn breaks_the_line(name: Seq<char>) -> bool {
    ||| name == "p"@
    ||| name == "div"@
    ||| name == "br"@
    ||| name == "li"@
    ||| name == "h1"@
    ||| name == "h2"@
    ||| name == "h3"@
    ||| name == "h4"@
    ||| name == "tr"@
    ||| name == "section"@
    ||| name == "article"@
    ||| name == "blockquote"@
}

/// Which tags break the line, whatever their case and whether they open or close.
pub proof fn law_block_tags(name: Seq<char>)
    ensures
        is_block(name) <==> breaks_the_line(ascii_lower(crate::adapters::body::unslashed(name))),
{
    let t = ascii_lower(crate::adapters::body::unslashed(name));
    let ns = crate::adapters::body::block_names();
    assert(ns[0] == "p"@ && ns[1] == "div"@ && ns[2] == "br"@ && ns[3] == "li"@ && ns[4] == "h1"@
        && ns[5] == "h2"@ && ns[6] == "h3"@ && ns[7] == "h4"@ && ns[8] == "tr"@ && ns[9]
        == "section"@ && ns[10] == "article"@ && ns[11] == "blockquote"@);
    if ns.contains(t) {
        let k = choose|k: int| 0 <= k < ns.len() && ns[k] == t;
    }
}

proof fn lemma_scan_plain(p: Seq<char>, x: Seq<char>)
    requires
        forall|i: int| 0 <= i < x.len() ==> #[trigger] x[i] != '<',
        !tag_scan(p).in_tag,
    ensures
        tag_scan(p + x) == (TagScan { out: tag_scan(p).out + x, ..tag_scan(p) }),
    decreases x.len(),
{
    if x.len() == 0 {
        assert(p + x =~= p);
        assert(tag_scan(p).out + x =~= tag_scan(p).out);
    } else {
        let most = x.drop_last();
        assert forall|i: int| 0 <= i < most.len() implies #[trigger] most[i] != '<' by {
            assert(most[i] == x[i]);
        }
        lemma_scan_plain(p, most);
        assert((p + x).drop_last() =~= p + most);
        assert((p + x).last() == x.last());
        assert(x.last() == x[x.len() - 1]);
        assert((tag_scan(p).out + most).push(x.last()) =~= tag_scan(p).out + x);
    }
}

proof fn lemma_scan_name(p: Seq<char>, name: Seq<char>)
    requires
        tag_scan(p).in_tag,
        tag_scan(p).naming,
        forall|i: int| 0 <= i < name.len() ==> alphanumeric(#[trigger] name[i]) || name[i] == '/',
        forall|i: int| 0 <= i < name.len() ==> #[trigger] name[i] != '<' && name[i] != '>',
    ensures
        tag_scan(p + name) == (TagScan { name: tag_scan(p).name + name, ..tag_scan(p) }),
    decreases name.len(),
{
    if name.len() == 0 {
        assert(p + name =~= p);
        assert(tag_scan(p).name + name =~= tag_scan(p).name);
    } else {
        let most = name.drop_last();
        assert forall|i: int| 0 <= i < most.len() implies #[trigger] most[i] == name[i] by {}
        lemma_scan_name(p, most);
        assert((p + name).drop_last() =~= p + most);
        assert((p + name).last() == name.last());
        assert(name.last() == name[name.len() - 1]);
        assert((tag_scan(p).name + most).push(name.last()) =~= tag_scan(p).name + name);
    }
}

/// A page without its tags: text outside of tags stays, and a tag leaves a line break where it
/// breaks the line and a blank otherwise.
pub proof fn law_tags_become_gaps(p: Seq<char>, x: Seq<char>, name: Seq<char>)
    requires
        !tag_scan(p).in_tag,
        forall|i: int| 0 <= i < x.len() ==> #[trigger] x[i] != '<',
        forall|i: int| 0 <= i < name.len() ==> alphanumeric(#[trigger] name[i]) || name[i] == '/',
        forall|i: int| 0 <= i < name.len() ==> #[trigger] name[i] != '<' && name[i] != '>',
    ensures
        untagged(p + x) == untagged(p) + x,
        untagged(p + seq!['<'] + name + seq!['>']) == untagged(p).push(
            if breaks_the_line(ascii_lower(crate::adapters::body::unslashed(name))) {
                '\n'
            } else {
                ' '
            },
        ),
        untagged(seq![]).len() == 0,
{
    lemma_scan_plain(p, x);
    let a = p + seq!['<'];
    assert(a.drop_last() =~= p);
    lemma_scan_name(a, name);
    let b = a + name;
    assert(Seq::<char>::empty() + name =~= name);
    assert(tag_scan(b).name == name);
    let c = b + seq!['>'];
    assert(c.drop_last() =~= b);
    law_block_tags(name);
}

/// The text of a page: nothing where it is under eighty characters, and at most the first twenty
/// thousand.
pub proof fn law_page_text_is_bounded(html: Seq<char>)
    ensures
        ({
            let text = joined(page_blocks(html), "\n"@);
            &&& text.len() < 80 ==> body_of(html) is None
            &&& 80 <= text.len() <= 20_000 ==> body_of(html) == Some(text)
            &&& text.len() > 20_000 ==> body_of(html) == Some(text.take(20_000))
        }),
{
}

/// The blocks of a page are its lines of eighty characters or more, with single blanks, in order.
pub proof fn law_blocks_are_long_lines(lines: Seq<Seq<char>>, line: Seq<char>)
    ensures
        ({
            let b = joined(words(line), " "@);
            &&& b.len() >= 80 ==> blocks(lines.push(line)) == blocks(lines).push(b)
            &&& b.len() < 80 ==> blocks(lines.push(line)) == blocks(lines)
            &&& blocks(seq![]).len() == 0
        }),
{
    assert(lines.push(line).drop_last() =~= lines);
}

/// A page is read that says nothing of its type, or is one of markup.
pub proof fn law_readable_pages(t: Seq<char>)
    ensures
        is_readable(None),
        is_readable(Some(t)) <==> occurs(t, "html"@) || occurs(t, "xml"@),
{
}

// ---------------------------------------------------------------------------------------------
// Other sources

/// An article needs an address and a title; its text is the title with the domain.
pub proof fn law_articles(list: Seq<ArticleModel>, a: ArticleModel)
    ensures
        article_item(a) is Some <==> a.url is Some && a.title is Some && a.title->0.len() > 0,
        article_item(a) matches Some(r) ==> {
            &&& r.source_type == "gdelt"@
            &&& r.source_ref == a.url->0
            &&& r.title == a.title
            &&& a.domain is Some ==> r.text == a.title->0 + " ("@ + a.domain->0 + ")"@
            &&& r.license_class == "commercial_clean"@
        },
        article_items(list.push(a)) == match article_item(a) {
            Some(r) => article_items(list).push(r),
            None => article_items(list),
        },
        article_items(seq![]).len() == 0,
{
    assert(list.push(a).drop_last() =~= list);
}

/// A collected row with text becomes an item under its address, or its id where it has none; one
/// without text is left out. The next reading begins at the latest row.
pub proof fn law_collected_rows(since: Seq<char>, ps: Seq<PulseModel>, p: PulseModel)
    ensures
        pulse_items(seq![]).len() == 0,
        trim(p.text).len() == 0 ==> pulse_items(ps.push(p)) == pulse_items(ps),
        trim(p.text).len() > 0 ==> pulse_items(ps.push(p)) == pulse_items(ps).push(pulse_item(p)),
        ({
            let r = pulse_item(p);
            &&& r.source_type == "pulse"@
            &&& p.url.len() > 0 ==> r.source_ref == p.url
            &&& p.url.len() == 0 ==> r.source_ref == p.id
            &&& p.title.len() > 0 ==> r.title == Some(p.title)
            &&& p.title.len() == 0 ==> r.title is None
            &&& r.text == p.text
            &&& r.license_class == "unknown"@
        }),
        latest(since, seq![]) == since,
        latest(since, ps) == since || exists|i: int|
            0 <= i < ps.len() && latest(since, ps) == (#[trigger] ps[i]).collected_at,
    decreases ps.len(),
{
    assert(ps.push(p).drop_last() =~= ps);
    if ps.len() > 0 {
        let most = ps.drop_last();
        law_collected_rows(since, most, p);
        assert(ps[ps.len() - 1] == ps.last());
        if latest(since, most) != since {
            let i = choose|i: int|
                0 <= i < most.len() && latest(since, most) == (#[trigger] most[i]).collected_at;
            assert(ps[i] == most[i]);
        }
    }
}

/// An event needs a longitude and a latitude, in this order; it counts as an earthquake and at no
/// depth where nothing else is said.
pub proof fn law_events_have_a_place(f: Json, time: Seq<char>)
    ensures
        ({
            let c = coordinates(f);
            let (lon, lat) = (double_in(item_at(c, 0)), double_in(item_at(c, 1)));
            &&& quake(f, time) is Some <==> lon is Some && lat is Some
            &&& quake(f, time) matches Some(q) ==> {
                &&& q.lon == lon->0
                &&& q.lat == lat->0
                &&& q.time == time
                &&& double_in(item_at(c, 2)) is Some ==> q.depth_km == double_in(item_at(c, 2))->0
                &&& double_in(item_at(c, 2)) is None ==> q.depth_km.bits == 0
                &&& f.field("properties"@) is None ==> q.event_type == "earthquake"@ && q.mag is None
                &&& f.field("properties"@) matches Some(p) ==> q.mag == double_in(p.field("mag"@))
                    && (crate::json::text_in(p.field("type"@)) matches Some(t) ==> q.event_type
                    == t) && (crate::json::text_in(p.field("title"@)) matches Some(t) ==> q.title
                    == t)
            }
        }),
{
}

/// The events of a feed are read one by one, in order; one without a place is left out. Each has
/// the time that its properties give in milliseconds, and zero counts where they give none.
pub proof fn law_events_are_read_in_order(fs: Seq<Json>, f: Json)
    ensures
        quakes(seq![]).len() == 0,
        quake(f, seq![]) is None ==> quakes(fs.push(f)) == quakes(fs),
        quake(f, seq![]) is Some ==> {
            let all = quakes(fs.push(f));
            &&& all.len() == quakes(fs).len() + 1
            &&& all.drop_last() == quakes(fs)
            &&& f.field("properties"@) matches Some(p) ==> (integer_in(p.field("time"@)) matches Some(
                n,
            ) ==> all.last().time == instant_text(millis_instant(n)))
            &&& f.field("properties"@) matches Some(p) ==> (integer_in(p.field("time"@)) is None
                ==> all.last().time == instant_text(millis_instant(0)))
            &&& quake(f, all.last().time) == Some(all.last())
        },
{
    assert(fs.push(f).drop_last() =~= fs);
    assert(fs.push(f).last() == f);
    if quake(f, seq![]) is Some {
        assert(quakes(fs.push(f)).drop_last() =~= quakes(fs));
    }
}

/// The feeds of events that there are.
pub proof fn law_event_feeds(feed: Seq<char>)
    ensures
        feed_names().contains(feed) <==> feed == "all_hour"@ || feed == "all_day"@ || feed
            == "1.0_day"@ || feed == "2.5_day"@ || feed == "4.5_day"@ || feed == "2.5_week"@ || feed
            == "4.5_week"@ || feed == "significant_month"@,
{
    let ns = feed_names();
    assert(ns[0] == "all_hour"@ && ns[1] == "all_day"@ && ns[2] == "1.0_day"@ && ns[3]
        == "2.5_day"@ && ns[4] == "4.5_day"@ && ns[5] == "2.5_week"@ && ns[6] == "4.5_week"@
        && ns[7] == "significant_month"@);
    if ns.contains(feed) {
        let k = choose|k: int| 0 <= k < ns.len() && ns[k] == feed;
    }
}

// ---------------------------------------------------------------------------------------------
// Models

/// Which provider is taken: the one that is named, and none where the name is unknown; otherwise a
/// compatible one, unless there is a key of the other and no address.
pub proof fn law_provider_is_chosen(
    name: Seq<char>,
    base: Option<Seq<char>>,
    key: Option<Seq<char>>,
)
    ensures
        provider_of(Some(name), base, key) is Some <==> name == "anthropic"@ || name == "openai"@,
        name == "anthropic"@ ==> provider_of(Some(name), base, key) == Some(Provider::Anthropic),
        name == "openai"@ && name != "anthropic"@ ==> provider_of(Some(name), base, key) == Some(
            Provider::OpenAiCompat,
        ),
        provider_of(None, base, key) == Some(Provider::Anthropic) <==> base is None && key is Some,
        provider_of(None, base, key) is Some,
{
}

proof fn lemma_without_slashes(s: Seq<char>)
    ensures
        without_slashes(s).len() > 0 ==> without_slashes(s).last() != '/',
        without_slashes(s.push('/')) == without_slashes(s),
        s.len() > 0 && s.last() != '/' ==> without_slashes(s) == s,
    decreases s.len(),
{
    assert(s.push('/').drop_last() =~= s);
    if s.len() > 0 && s.last() == '/' {
        lemma_without_slashes(s.drop_last());
    }
}

/// The settings of a provider: one of them needs its key; the other is reached under the given
/// address, without slashes at its end, or on this machine, with a key where there is one. A model
/// that is named is taken.
pub proof fn law_settings_of_a_provider(
    base: Option<Seq<char>>,
    key: Option<Seq<char>>,
    other: Option<Seq<char>>,
    model: Option<Seq<char>>,
    hosted: Seq<char>,
)
    ensures
        ({
            let a = settings_for(Provider::Anthropic, base, key, other, model, hosted);
            let o = settings_for(Provider::OpenAiCompat, base, key, other, model, hosted);
            &&& a is Some <==> key is Some
            &&& a is Some ==> a->0.api_key == key && a->0.base_url
                == "https://api.anthropic.com/v1/messages"@ && a->0.provider == Provider::Anthropic
            &&& a is Some && model is Some ==> a->0.model == model->0
            &&& a is Some && model is None ==> a->0.model == hosted
            &&& o is Some
            &&& o->0.api_key == other
            &&& o->0.provider == Provider::OpenAiCompat
            &&& o->0.base_url.len() > 0 ==> o->0.base_url.last() != '/'
            &&& base is Some && base->0.len() > 0 && base->0.last() != '/' ==> o->0.base_url
                == base->0
            &&& base is None ==> o->0.base_url == without_slashes("http://localhost:11434"@)
            &&& model is Some ==> o->0.model == model->0
        }),
{
    lemma_without_slashes(or_default(base, crate::llm::DEFAULT_OPENAI_BASE@));
}

/// Where the answer stands in a reply.
pub proof fn law_answer_of_a_reply(reply: Json)
    ensures
        answer_in(Provider::Anthropic, reply) is Some ==> crate::llm::first_in(
            reply,
            "content"@,
        ) is Some && answer_in(Provider::Anthropic, reply) == crate::json::text_in(
            crate::llm::first_in(reply, "content"@)->0.field("text"@),
        ),
        answer_in(Provider::OpenAiCompat, reply) is Some ==> crate::llm::first_in(
            reply,
            "choices"@,
        ) is Some && crate::llm::first_in(reply, "choices"@)->0.field("message"@) is Some
            && answer_in(Provider::OpenAiCompat, reply) == crate::json::text_in(
            crate::llm::first_in(reply, "choices"@)->0.field("message"@)->0.field("content"@),
        ),
{
}

proof fn lemma_text_in_quotes(s: Seq<char>, i: int, n: int, depth: usize)
    requires
        0 <= i <= n < s.len(),
        forall|k: int| i <= k < n ==> #[trigger] s[k] != '"' && s[k] != '\\',
    ensures
        ({
            let st = BraceState { depth, in_str: true, escape: false };
            block_end(s, i, st) == block_end(s, n, st)
        }),
    decreases n - i,
{
    if i < n {
        lemma_text_in_quotes(s, i + 1, n, depth);
        assert(s[i] != '"');
    }
}

/// An object is found whatever its strings hold: braces within quotes do not count, nor does a
/// quote that is escaped.
pub proof fn law_braces_in_strings_do_not_count(t: Seq<char>, c: char, before: Seq<char>)
    requires
        forall|k: int| 0 <= k < t.len() ==> #[trigger] t[k] != '"' && t[k] != '\\',
        forall|k: int| 0 <= k < before.len() ==> #[trigger] before[k] != '{',
    ensures
        ({
            let plain = seq!['{', '"'] + t + seq!['"', '}'];
            let escaped = seq!['{', '"', '\\', c] + t + seq!['"', '}'];
            &&& json_object(before + plain) == Some(plain)
            &&& json_object(before + escaped) == Some(escaped)
            &&& json_object(before) is None
        }),
{
    let plain = seq!['{', '"'] + t + seq!['"', '}'];
    let escaped = seq!['{', '"', '\\', c] + t + seq!['"', '}'];
    let b = before.len() as int;
    let s = before + plain;
    let inside = BraceState { depth: 1, in_str: true, escape: false };
    let outside = BraceState { depth: 1, in_str: false, escape: false };
    let n = t.len() as int;
    reveal_with_fuel(block_end, 6);
    assert(s[b] == '{' && s[b + 1] == '"');
    assert forall|k: int| b + 2 <= k < b + 2 + n implies #[trigger] s[k] != '"' && s[k]
        != '\\' by {
        assert(s[k] == t[k - b - 2]);
    }
    assert(s[b + 2 + n] == '"' && s[b + 3 + n] == '}');
    lemma_text_in_quotes(s, b + 2, b + 2 + n, 1);
    assert(block_end(s, b + 2 + n, inside) == block_end(s, b + 3 + n, outside));
    assert(block_end(s, b + 3 + n, outside) == Some(b + 4 + n));
    assert(block_end(s, b, brace_begin()) == Some(b + 4 + n));
    lemma_object_from(s, 0, b);
    assert(s.subrange(b, b + 4 + n) =~= plain);

    let u = before + escaped;
    assert(u[b] == '{' && u[b + 1] == '"' && u[b + 2] == '\\' && u[b + 3] == c);
    assert forall|k: int| b + 4 <= k < b + 4 + n implies #[trigger] u[k] != '"' && u[k]
        != '\\' by {
        assert(u[k] == t[k - b - 4]);
    }
    assert(u[b + 4 + n] == '"' && u[b + 5 + n] == '}');
    lemma_text_in_quotes(u, b + 4, b + 4 + n, 1);
    assert(block_end(u, b + 4 + n, inside) == block_end(u, b + 5 + n, outside));
    assert(block_end(u, b + 5 + n, outside) == Some(b + 6 + n));
    let esc = BraceState { depth: 1, in_str: true, escape: true };
    assert(block_end(u, b + 3, esc) == block_end(u, b + 4, inside));
    assert(block_end(u, b, brace_begin()) == Some(b + 6 + n));
    lemma_object_from(u, 0, b);
    assert(u.subrange(b, b + 6 + n) =~= escaped);
    lemma_no_object(before, 0);
}

proof fn lemma_object_from(s: Seq<char>, i: int, b: int)
    requires
        0 <= i <= b < s.len(),
        forall|k: int| i <= k < b ==> #[trigger] s[k] != '{',
        opens_block(s, b),
    ensures
        object_from(s, i) == Some(s.subrange(b, block_end(s, b, brace_begin())->0)),
    decreases b - i,
{
    if i < b {
        assert(s[i] != '{');
        lemma_object_from(s, i + 1, b);
    }
}

proof fn lemma_no_object(s: Seq<char>, i: int)
    requires
        0 <= i <= s.len(),
        forall|k: int| i <= k < s.len() ==> #[trigger] s[k] != '{',
    ensures
        object_from(s, i) is None,
    decreases s.len() - i,
{
    if i < s.len() {
        assert(s[i] != '{');
        lemma_no_object(s, i + 1);
    }
}

/// Marks of markup that are not there are not decoded: a text without an ampersand stays.
pub proof fn law_plain_text_is_not_decoded(s: Seq<char>)
    requires
        !s.contains('&'),
    ensures
        decoded(s) == s,
{
    lemma_no_mark(s, "&nbsp;"@);
    lemma_no_mark(s, "&amp;"@);
    lemma_no_mark(s, "&quot;"@);
    lemma_no_mark(s, "&#39;"@);
    lemma_no_mark(s, "&rsquo;"@);
    lemma_no_mark(s, "&lsquo;"@);
    lemma_no_mark(s, "&rdquo;"@);
    lemma_no_mark(s, "&ldquo;"@);
    lemma_no_mark(s, "&mdash;"@);
    lemma_no_mark(s, "&ndash;"@);
    lemma_no_mark(s, "&lt;"@);
    lemma_no_mark(s, "&gt;"@);
    lemma_marks();
    crate::laws::texts::law_replacing(s, "&nbsp;"@, " "@);
    crate::laws::texts::law_replacing(s, "&amp;"@, "&"@);
    crate::laws::texts::law_replacing(s, "&quot;"@, "\""@);
    crate::laws::texts::law_replacing(s, "&#39;"@, "'"@);
    crate::laws::texts::law_replacing(s, "&rsquo;"@, "’"@);
    crate::laws::texts::law_replacing(s, "&lsquo;"@, "‘"@);
    crate::laws::texts::law_replacing(s, "&rdquo;"@, "”"@);
    crate::laws::texts::law_replacing(s, "&ldquo;"@, "“"@);
    crate::laws::texts::law_replacing(s, "&mdash;"@, "—"@);
    crate::laws::texts::law_replacing(s, "&ndash;"@, "–"@);
    crate::laws::texts::law_replacing(s, "&lt;"@, "<"@);
    crate::laws::texts::law_replacing(s, "&gt;"@, ">"@);
}

proof fn lemma_marks()
    ensures
        "&nbsp;"@.len() > 0 && "&nbsp;"@[0] == '&',
        "&amp;"@.len() > 0 && "&amp;"@[0] == '&',
        "&quot;"@.len() > 0 && "&quot;"@[0] == '&',
        "&#39;"@.len() > 0 && "&#39;"@[0] == '&',
        "&rsquo;"@.len() > 0 && "&rsquo;"@[0] == '&',
        "&lsquo;"@.len() > 0 && "&lsquo;"@[0] == '&',
        "&rdquo;"@.len() > 0 && "&rdquo;"@[0] == '&',
        "&ldquo;"@.len() > 0 && "&ldquo;"@[0] == '&',
        "&mdash;"@.len() > 0 && "&mdash;"@[0] == '&',
        "&ndash;"@.len() > 0 && "&ndash;"@[0] == '&',
        "&lt;"@.len() > 0 && "&lt;"@[0] == '&',
        "&gt;"@.len() > 0 && "&gt;"@[0] == '&',
{
    reveal_strlit("&nbsp;");
    reveal_strlit("&amp;");
    reveal_strlit("&quot;");
    reveal_strlit("&#39;");
    reveal_strlit("&rsquo;");
    reveal_strlit("&lsquo;");
    reveal_strlit("&rdquo;");
    reveal_strlit("&ldquo;");
    reveal_strlit("&mdash;");
    reveal_strlit("&ndash;");
    reveal_strlit("&lt;");
    reveal_strlit("&gt;");
}

proof fn lemma_no_mark(s: Seq<char>, mark: Seq<char>)
    requires
        !s.contains('&'),
    ensures
        mark.len() > 0 && mark[0] == '&' ==> !occurs(s, mark),
{
    if mark.len() > 0 && mark[0] == '&' && occurs(s, mark) {
        let i = choose|i: int| crate::text::occurs_at(s, mark, i);
        assert(s.subrange(i, i + mark.len())[0] == mark[0]);
        assert(s[i] == '&');
    }
}

} // verus!
