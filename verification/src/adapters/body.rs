//! Article bodies. Feed metadata is often a title or a one-line teaser; extraction needs
//! paragraphs. This strips a page's markup and keeps the long text blocks.

use vstd::prelude::*;
use vstd::string::*;

use crate::text::{
    alphanumeric, ascii_lower, chars_of, find_chars, first_from, join, joined, lemma_first_from,
    lemma_first_is, lower_ascii, occurs, occurs_at, pieces, replace_chars, replaced, split_at_char,
    split_words, string_of, sub_chars, views, words,
};

verus! {

/// The longest body that is kept.
pub const MAX_BODY_CHARS: usize = 20_000;

/// The shortest block that counts as prose.
pub const MIN_BLOCK_CHARS: usize = 80;

// ---------------------------------------------------------------------------------------------
// Containers

/// How a container begins.
pub open spec fn opening(tag: Seq<char>) -> Seq<char> {
    "<"@ + tag
}

/// How a container ends.
pub open spec fn closing(tag: Seq<char>) -> Seq<char> {
    "</"@ + tag + ">"@
}

/// How long the ends of a container are.
pub proof fn lemma_closing(tag: Seq<char>)
    ensures
        closing(tag).len() == tag.len() + 3,
        opening(tag).len() == tag.len() + 1,
{
    reveal_strlit("<");
    reveal_strlit("</");
    reveal_strlit(">");
}

/// A page without its containers of one kind, whatever the case of their tags: each is replaced
/// by a space, and one that is never closed takes the rest of the page with it.
pub open spec fn cleared(s: Seq<char>, tag: Seq<char>) -> Seq<char>
    decreases s.len(),
{
    match first_from(ascii_lower(s), opening(tag), 0) {
        None => s,
        Some(start) => match first_from(ascii_lower(s), closing(tag), start) {
            None => s.take(start),
            Some(end) => {
                proof {
                    lemma_closing(tag);
                    lemma_first_from(ascii_lower(s), opening(tag), 0);
                    lemma_first_from(ascii_lower(s), closing(tag), start);
                }
                cleared(s.take(start) + seq![' '] + s.skip(end + closing(tag).len()), tag)
            },
        },
    }
}

fn clear(cs: &Vec<char>, tag: &str) -> (r: Vec<char>)
    ensures
        r@ == cleared(cs@, tag@),
{
    proof {
        lemma_closing(tag@);
    }
    let mut open = "<".to_owned();
    open.append(tag);
    let open = chars_of(open.as_str());
    let mut close = "</".to_owned();
    close.append(tag);
    close.append(">");
    let close = chars_of(close.as_str());
    let mut s = sub_chars(cs, 0, cs.len());
    assert(s@ =~= cs@);
    loop
        invariant
            open@ == opening(tag@),
            close@ == closing(tag@),
            close@.len() == tag@.len() + 3,
            cleared(s@, tag@) == cleared(cs@, tag@),
        decreases s@.len(),
    {
        let lower = lower_ascii(&s);
        let n: usize = lower.len();
        let start = match find_chars(&lower, &open, 0) {
            Some(p) => p,
            None => {
                return s;
            },
        };
        let end = match find_chars(&lower, &close, start) {
            Some(p) => {
                assert(p + close@.len() <= n);
                p + close.len()
            },
            None => {
                let kept = sub_chars(&s, 0, start);
                assert(kept@ =~= s@.take(start as int));
                return kept;
            },
        };
        proof {
            lemma_first_from(lower@, close@, start as int);
        }
        let ghost before = s@;
        let mut next = sub_chars(&s, 0, start);
        next.push(' ');
        let mut rest = sub_chars(&s, end, s.len());
        next.append(&mut rest);
        assert(next@ =~= before.take(start as int) + seq![' '] + before.skip(end as int));
        s = next;
    }
}

/// The containers that hold no prose.
pub open spec fn containers() -> Seq<Seq<char>> {
    seq![
        "script"@,
        "style"@,
        "noscript"@,
        "svg"@,
        "nav"@,
        "header"@,
        "footer"@,
        "aside"@,
    ]
}

/// A page without its containers of the given kinds, one kind after the other.
pub open spec fn without_containers(s: Seq<char>, tags: Seq<Seq<char>>) -> Seq<char>
    decreases tags.len(),
{
    if tags.len() == 0 {
        s
    } else {
        cleared(without_containers(s, tags.drop_last()), tags.last())
    }
}

fn remove_containers(html: &str) -> (r: Vec<char>)
    ensures
        r@ == without_containers(html@, containers()),
{
    let tags = vec!["script", "style", "noscript", "svg", "nav", "header", "footer", "aside"];
    let ghost all = containers();
    assert(tags@.len() == all.len());
    assert forall|i: int| 0 <= i < tags@.len() implies (#[trigger] tags@[i])@ == all[i] by {}
    let mut s = chars_of(html);
    let mut i: usize = 0;
    assert(all.take(0) =~= seq![]);
    while i < tags.len()
        invariant
            i <= tags@.len(),
            tags@.len() == all.len(),
            forall|k: int| 0 <= k < tags@.len() ==> (#[trigger] tags@[k])@ == all[k],
            s@ == without_containers(html@, all.take(i as int)),
        decreases tags.len() - i,
    {
        assert(all.take(i + 1).drop_last() =~= all.take(i as int));
        assert(all.take(i + 1).last() == tags@[i as int]@);
        s = clear(&s, tags[i]);
        i += 1;
    }
    assert(all.take(i as int) =~= all);
    s
}

/// A text without spaces that occurs in two texts with a space between them occurs in one of
/// them.
proof fn lemma_not_across(a: Seq<char>, b: Seq<char>, needle: Seq<char>, j: int)
    requires
        forall|i: int| 0 <= i < needle.len() ==> #[trigger] needle[i] != ' ',
        needle.len() > 0,
        occurs_at(ascii_lower(a + seq![' '] + b), needle, j),
    ensures
        occurs_at(ascii_lower(a), needle, j) || occurs_at(
            ascii_lower(b),
            needle,
            j - a.len() - 1,
        ),
{
    let all = ascii_lower(a + seq![' '] + b);
    let found = all.subrange(j, j + needle.len());
    assert(all[a.len() as int] == ' ');
    if j <= a.len() && a.len() < j + needle.len() {
        assert(found[a.len() - j] == ' ');
        assert(needle[a.len() - j] == ' ');
    }
    if j + needle.len() <= a.len() {
        assert(ascii_lower(a).subrange(j, j + needle.len()) =~= found);
    } else {
        let k = j - a.len() - 1;
        assert(ascii_lower(b).subrange(k, k + needle.len()) =~= found);
    }
}

/// Clearing one kind of container brings forth no opening of another.
proof fn lemma_cleared_adds_nothing(s: Seq<char>, tag: Seq<char>, needle: Seq<char>)
    requires
        forall|i: int| 0 <= i < needle.len() ==> #[trigger] needle[i] != ' ',
        needle.len() > 0,
        occurs(ascii_lower(cleared(s, tag)), needle),
    ensures
        occurs(ascii_lower(s), needle),
    decreases s.len(),
{
    lemma_closing(tag);
    let lower = ascii_lower(s);
    lemma_first_from(lower, opening(tag), 0);
    if let Some(start) = first_from(lower, opening(tag), 0) {
        lemma_first_from(lower, closing(tag), start);
        match first_from(lower, closing(tag), start) {
            None => {
                let j = choose|j: int| occurs_at(ascii_lower(s.take(start)), needle, j);
                assert(lower.subrange(j, j + needle.len()) =~= ascii_lower(s.take(start)).subrange(
                    j,
                    j + needle.len(),
                ));
                assert(occurs_at(lower, needle, j));
            },
            Some(end) => {
                let a = s.take(start);
                let from = end + closing(tag).len();
                let b = s.skip(from);
                lemma_cleared_adds_nothing(a + seq![' '] + b, tag, needle);
                let j = choose|j: int| occurs_at(ascii_lower(a + seq![' '] + b), needle, j);
                lemma_not_across(a, b, needle, j);
                if occurs_at(ascii_lower(a), needle, j) {
                    assert(lower.subrange(j, j + needle.len()) =~= ascii_lower(a).subrange(
                        j,
                        j + needle.len(),
                    ));
                    assert(occurs_at(lower, needle, j));
                } else {
                    let k = j - a.len() - 1;
                    assert(lower.subrange(from + k, from + k + needle.len()) =~= ascii_lower(
                        b,
                    ).subrange(k, k + needle.len()));
                    assert(occurs_at(lower, needle, from + k));
                }
            },
        }
    }
}

/// No container of a kind that was cleared is left.
proof fn lemma_cleared(s: Seq<char>, tag: Seq<char>)
    ensures
        !occurs(ascii_lower(cleared(s, tag)), opening(tag)),
    decreases s.len(),
{
    lemma_closing(tag);
    let lower = ascii_lower(s);
    lemma_first_from(lower, opening(tag), 0);
    if let Some(start) = first_from(lower, opening(tag), 0) {
        lemma_first_from(lower, closing(tag), start);
        match first_from(lower, closing(tag), start) {
            None => {
                let kept = ascii_lower(s.take(start));
                if occurs(kept, opening(tag)) {
                    let j = choose|j: int| occurs_at(kept, opening(tag), j);
                    let n = opening(tag).len();
                    assert(lower.subrange(j, j + n) =~= kept.subrange(j, j + n));
                    assert(occurs_at(lower, opening(tag), j));
                }
            },
            Some(end) => {
                lemma_cleared(
                    s.take(start) + seq![' '] + s.skip(end + closing(tag).len()),
                    tag,
                );
            },
        }
    }
}

proof fn lemma_without(s: Seq<char>, tags: Seq<Seq<char>>, n: int)
    requires
        0 <= n < tags.len(),
        forall|i: int| 0 <= i < tags[n].len() ==> #[trigger] tags[n][i] != ' ',
    ensures
        !occurs(ascii_lower(without_containers(s, tags)), opening(tags[n])),
    decreases tags.len(),
{
    let before = without_containers(s, tags.drop_last());
    let needle = opening(tags[n]);
    lemma_closing(tags[n]);
    reveal_strlit("<");
    assert forall|i: int| 0 <= i < needle.len() implies #[trigger] needle[i] != ' ' by {
        if i > 0 {
            assert(needle[i] == tags[n][i - 1]);
        }
    }
    if n == tags.len() - 1 {
        lemma_cleared(before, tags.last());
    } else {
        lemma_without(s, tags.drop_last(), n);
        if occurs(ascii_lower(cleared(before, tags.last())), needle) {
            lemma_cleared_adds_nothing(before, tags.last(), needle);
        }
    }
}

/// Once its containers are removed, a page opens none of them, in whatever case.
pub proof fn law_containers_are_gone(html: Seq<char>, n: int)
    requires
        0 <= n < containers().len(),
    ensures
        !occurs(
            ascii_lower(without_containers(html, containers())),
            opening(containers()[n]),
        ),
{
    reveal_strlit("script");
    reveal_strlit("style");
    reveal_strlit("noscript");
    reveal_strlit("svg");
    reveal_strlit("nav");
    reveal_strlit("header");
    reveal_strlit("footer");
    reveal_strlit("aside");
    lemma_without(html, containers(), n);
}

/// The name of a tag: small letters only.
pub open spec fn is_tag_name(tag: Seq<char>) -> bool {
    tag.len() > 0 && forall|i: int| 0 <= i < tag.len() ==> 'a' <= #[trigger] tag[i] <= 'z'
}

/// A container and what stands around it.
pub open spec fn around(p: Seq<char>, tag: Seq<char>, x: Seq<char>, q: Seq<char>) -> Seq<char> {
    p + (opening(tag) + ">"@) + x + closing(tag) + q
}

/// The text begins a tag, and no other one in it.
spec fn is_one_tag(needle: Seq<char>) -> bool {
    &&& needle.len() > 0
    &&& needle[0] == '<'
    &&& forall|i: int| 0 < i < needle.len() ==> #[trigger] needle[i] != '<'
}

proof fn lemma_ends_are_tags(tag: Seq<char>)
    requires
        is_tag_name(tag),
    ensures
        is_one_tag(opening(tag)),
        is_one_tag(closing(tag)),
        opening(tag)[1] == tag[0],
        closing(tag)[1] == '/',
        ascii_lower(opening(tag)) == opening(tag),
        ascii_lower(closing(tag)) == closing(tag),
{
    lemma_closing(tag);
    reveal_strlit("<");
    reveal_strlit("</");
    reveal_strlit(">");
    let (o, c) = (opening(tag), closing(tag));
    assert forall|i: int| 0 < i < o.len() implies #[trigger] o[i] == tag[i - 1] by {}
    assert forall|i: int| 1 < i < c.len() - 1 implies #[trigger] c[i] == tag[i - 2] by {}
    assert(c[1] == '/' && c[c.len() - 1] == '>');
    assert forall|i: int| 0 < i < o.len() implies #[trigger] o[i] != '<' by {
        assert('a' <= tag[i - 1] <= 'z');
    }
    assert forall|i: int| 0 < i < c.len() implies #[trigger] c[i] != '<' by {
        if 1 < i < c.len() - 1 {
            assert('a' <= tag[i - 2] <= 'z');
        }
    }
    assert(ascii_lower(o) =~= o) by {
        assert forall|i: int| 0 <= i < o.len() implies ascii_lower(o)[i] == o[i] by {
            if i > 0 {
                assert('a' <= tag[i - 1] <= 'z');
            }
        }
    }
    assert(ascii_lower(c) =~= c) by {
        assert forall|i: int| 0 <= i < c.len() implies ascii_lower(c)[i] == c[i] by {
            if 1 < i < c.len() - 1 {
                assert('a' <= tag[i - 2] <= 'z');
            }
        }
    }
}

/// A tag does not reach over the beginning of another one.
proof fn lemma_not_over(l: Seq<char>, needle: Seq<char>, j: int, b: int)
    requires
        is_one_tag(needle),
        occurs_at(l, needle, j),
        0 <= b < l.len(),
        l[b] == '<',
    ensures
        b <= j || j + needle.len() <= b,
{
    if j < b < j + needle.len() {
        assert(l.subrange(j, j + needle.len())[b - j] == l[b]);
    }
}

proof fn lemma_occurs_before(a: Seq<char>, b: Seq<char>, needle: Seq<char>, j: int)
    requires
        j + needle.len() <= a.len(),
    ensures
        occurs_at(ascii_lower(a + b), needle, j) == occurs_at(ascii_lower(a), needle, j),
{
    if 0 <= j {
        assert(ascii_lower(a + b).subrange(j, j + needle.len()) =~= ascii_lower(a).subrange(
            j,
            j + needle.len(),
        ));
    }
}

/// Where the content of the container begins.
spec fn inner(p: Seq<char>, tag: Seq<char>) -> int {
    (p.len() + tag.len() + 2) as int
}

proof fn lemma_around(p: Seq<char>, tag: Seq<char>, x: Seq<char>, q: Seq<char>)
    requires
        is_tag_name(tag),
    ensures
        ({
            let l = ascii_lower(around(p, tag, x, q));
            let (n, mid) = (p.len() as int, inner(p, tag));
            let m = mid + x.len();
            &&& m + closing(tag).len() <= l.len()
            &&& around(p, tag, x, q) == p + around(seq![], tag, x, q)
            &&& occurs_at(l, opening(tag), n)
            &&& occurs_at(l, closing(tag), m)
            &&& l[n] == '<'
            &&& l[m] == '<'
            &&& l[n + 1] != '/'
            &&& forall|i: int| n < i < mid ==> #[trigger] l[i] != '<'
            &&& l.subrange(mid, m) == ascii_lower(x)
        }),
{
    lemma_closing(tag);
    lemma_ends_are_tags(tag);
    reveal_strlit("<");
    reveal_strlit(">");
    let (o, c) = (opening(tag), closing(tag));
    let all = around(p, tag, x, q);
    let l = ascii_lower(all);
    let (n, mid) = (p.len() as int, inner(p, tag));
    let m = mid + x.len();
    assert(all =~= p + around(seq![], tag, x, q));
    assert(all.subrange(n, n + o.len()) =~= o);
    assert(l.subrange(n, n + o.len()) =~= ascii_lower(o));
    assert(all.subrange(m, m + c.len()) =~= c);
    assert(l.subrange(m, m + c.len()) =~= ascii_lower(c));
    assert(l[n] == l.subrange(n, n + o.len())[0]);
    assert(l[n + 1] == l.subrange(n, n + o.len())[1]);
    assert('a' <= tag[0] <= 'z');
    assert(l[m] == l.subrange(m, m + c.len())[0]);
    assert forall|i: int| n < i < mid implies #[trigger] l[i] != '<' by {
        if i < mid - 1 {
            assert(l[i] == l.subrange(n, n + o.len())[i - n]);
        } else {
            assert(all[i] == '>');
        }
    }
    assert(l.subrange(mid, m) =~= ascii_lower(x));
}

/// The first container of a kind begins in front of one of that kind, or is that one.
proof fn lemma_begins_around(p: Seq<char>, tag: Seq<char>, x: Seq<char>, q: Seq<char>)
    requires
        is_tag_name(tag),
    ensures
        first_from(ascii_lower(around(p, tag, x, q)), opening(tag), 0) == match first_from(
            ascii_lower(p),
            opening(tag),
            0,
        ) {
            Some(start) => Some(start),
            None => Some(p.len() as int),
        },
{
    let o = opening(tag);
    let l = ascii_lower(around(p, tag, x, q));
    let a = ascii_lower(p);
    let n = p.len() as int;
    let rest = around(seq![], tag, x, q);
    lemma_ends_are_tags(tag);
    lemma_around(p, tag, x, q);
    lemma_first_from(a, o, 0);
    match first_from(a, o, 0) {
        Some(there) => {
            lemma_occurs_before(p, rest, o, there);
            assert forall|j: int| 0 <= j < there implies !occurs_at(l, o, j) by {
                lemma_occurs_before(p, rest, o, j);
            }
            lemma_first_is(l, o, 0, there);
        },
        None => {
            assert forall|j: int| 0 <= j < n implies !occurs_at(l, o, j) by {
                if occurs_at(l, o, j) {
                    lemma_not_over(l, o, j, n);
                    lemma_occurs_before(p, rest, o, j);
                }
            }
            lemma_first_is(l, o, 0, n);
        },
    }
}

/// What is open in front of a container ends in front of it, or with it.
proof fn lemma_ends_around(p: Seq<char>, tag: Seq<char>, x: Seq<char>, q: Seq<char>, from: int)
    requires
        is_tag_name(tag),
        !occurs(ascii_lower(x), closing(tag)),
        0 <= from <= p.len(),
    ensures
        first_from(ascii_lower(around(p, tag, x, q)), closing(tag), from) == match first_from(
            ascii_lower(p),
            closing(tag),
            from,
        ) {
            Some(end) => Some(end),
            None => Some(inner(p, tag) + x.len()),
        },
{
    let c = closing(tag);
    let l = ascii_lower(around(p, tag, x, q));
    let a = ascii_lower(p);
    let (n, mid) = (p.len() as int, inner(p, tag));
    let m = mid + x.len();
    lemma_ends_are_tags(tag);
    lemma_closing(tag);
    lemma_around(p, tag, x, q);
    lemma_first_from(l, c, from);
    lemma_first_from(a, c, from);
    let end = first_from(l, c, from)->0;
    assert(end <= m);
    lemma_not_over(l, c, end, n);
    lemma_not_over(l, c, end, m);
    if let Some(there) = first_from(a, c, from) {
        lemma_occurs_before(p, around(seq![], tag, x, q), c, there);
    }
    let found = l.subrange(end, end + c.len());
    assert(found[0] == l[end] && found[1] == l[end + 1]);
    if end < n {
        lemma_occurs_before(p, around(seq![], tag, x, q), c, end);
    } else if mid <= end < m {
        assert(l.subrange(mid, m).subrange(end - mid, end - mid + c.len()) =~= found);
        assert(occurs_at(ascii_lower(x), c, end - mid));
    }
}

proof fn lemma_cleared_alike(p: Seq<char>, tag: Seq<char>, x: Seq<char>, y: Seq<char>, q: Seq<char>)
    requires
        is_tag_name(tag),
        !occurs(ascii_lower(x), closing(tag)),
        !occurs(ascii_lower(y), closing(tag)),
    ensures
        cleared(around(p, tag, x, q), tag) == cleared(around(p, tag, y, q), tag),
    decreases p.len(),
{
    lemma_closing(tag);
    let (o, c) = (opening(tag), closing(tag));
    let a = ascii_lower(p);
    let (s, t) = (around(p, tag, x, q), around(p, tag, y, q));
    reveal_strlit(">");
    lemma_first_from(a, o, 0);
    let start = match first_from(a, o, 0) {
        Some(k) => k,
        None => p.len() as int,
    };
    lemma_begins_around(p, tag, x, q);
    lemma_begins_around(p, tag, y, q);
    lemma_ends_around(p, tag, x, q, start);
    lemma_ends_around(p, tag, y, q, start);
    lemma_first_from(a, c, start);
    match first_from(a, c, start) {
        Some(end) => {
            let from = end + c.len();
            let less = p.take(start) + seq![' '] + p.skip(from);
            lemma_cleared_alike(less, tag, x, y, q);
            assert(s.take(start) + seq![' '] + s.skip(from) =~= around(less, tag, x, q));
            assert(t.take(start) + seq![' '] + t.skip(from) =~= around(less, tag, y, q));
        },
        None => {
            let left = p.take(start) + seq![' '] + q;
            let ends = (p.len() + tag.len() + 2 + c.len()) as int;
            assert(s.take(start) + seq![' '] + s.skip(ends + x.len()) =~= left);
            assert(t.take(start) + seq![' '] + t.skip(ends + y.len()) =~= left);
        },
    }
}

proof fn lemma_without_alike(s: Seq<char>, t: Seq<char>, tags: Seq<Seq<char>>)
    requires
        tags.len() > 0,
        cleared(s, tags[0]) == cleared(t, tags[0]),
    ensures
        without_containers(s, tags) == without_containers(t, tags),
    decreases tags.len(),
{
    let most = tags.drop_last();
    if tags.len() > 1 {
        assert(most[0] == tags[0]);
        lemma_without_alike(s, t, most);
    } else {
        assert(without_containers(s, most) == s);
        assert(without_containers(t, most) == t);
    }
}

// ---------------------------------------------------------------------------------------------
// Tags

/// A text without its leading slashes.
pub open spec fn unslashed(s: Seq<char>) -> Seq<char>
    decreases s.len(),
{
    if s.len() > 0 && s[0] == '/' {
        unslashed(s.drop_first())
    } else {
        s
    }
}

/// The tags that end a line.
pub open spec fn block_names() -> Seq<Seq<char>> {
    seq![
        "p"@,
        "div"@,
        "br"@,
        "li"@,
        "h1"@,
        "h2"@,
        "h3"@,
        "h4"@,
        "tr"@,
        "section"@,
        "article"@,
        "blockquote"@,
    ]
}

/// The tag ends a line.
pub open spec fn is_block(name: Seq<char>) -> bool {
    block_names().contains(ascii_lower(unslashed(name)))
}

fn block(name: &Vec<char>) -> (r: bool)
    ensures
        r == is_block(name@),
{
    let mut k: usize = 0;
    assert(name@.skip(0) =~= name@);
    while k < name.len() && name[k] == '/'
        invariant
            k <= name@.len(),
            unslashed(name@) == unslashed(name@.skip(k as int)),
        decreases name.len() - k,
    {
        assert(name@.skip(k as int).drop_first() =~= name@.skip(k + 1));
        k += 1;
    }
    let bare = sub_chars(name, k, name.len());
    assert(bare@ =~= name@.skip(k as int));
    let lower = string_of(&lower_ascii(&bare));
    let names = vec![
        "p",
        "div",
        "br",
        "li",
        "h1",
        "h2",
        "h3",
        "h4",
        "tr",
        "section",
        "article",
        "blockquote",
    ];
    let ghost all = block_names();
    assert(names@.len() == all.len());
    assert forall|i: int| 0 <= i < names@.len() implies (#[trigger] names@[i])@ == all[i] by {}
    let mut i: usize = 0;
    while i < names.len()
        invariant
            i <= names@.len(),
            names@.len() == all.len(),
            all == block_names(),
            lower@ == ascii_lower(unslashed(name@)),
            forall|j: int| 0 <= j < names@.len() ==> (#[trigger] names@[j])@ == all[j],
            forall|j: int| 0 <= j < i ==> #[trigger] all[j] != lower@,
        decreases names.len() - i,
    {
        if crate::text::str_eq(names[i], lower.as_str()) {
            assert(all[i as int] == lower@);
            return true;
        }
        assert(all[i as int] != lower@);
        i += 1;
    }
    false
}

/// Where the removal of tags stands: the text so far, whether a tag is open, what is known of its
/// name, and whether the name goes on.
#[verifier::ext_equal]
pub struct TagScan {
    pub out: Seq<char>,
    pub in_tag: bool,
    pub name: Seq<char>,
    pub naming: bool,
}

/// The scan after one more character.
pub open spec fn scan_step(st: TagScan, c: char) -> TagScan {
    if c == '<' {
        TagScan { in_tag: true, naming: true, name: seq![], ..st }
    } else if !st.in_tag {
        TagScan { out: st.out.push(c), ..st }
    } else if c == '>' {
        TagScan {
            in_tag: false,
            out: st.out.push(
                if is_block(st.name) {
                    '\n'
                } else {
                    ' '
                },
            ),
            ..st
        }
    } else if st.naming {
        if alphanumeric(c) || c == '/' {
            TagScan { name: st.name.push(c), ..st }
        } else {
            TagScan { naming: false, ..st }
        }
    } else {
        st
    }
}

pub open spec fn tag_scan(s: Seq<char>) -> TagScan
    decreases s.len(),
{
    if s.len() == 0 {
        TagScan { out: seq![], in_tag: false, name: seq![], naming: false }
    } else {
        scan_step(tag_scan(s.drop_last()), s.last())
    }
}

/// A page without its tags: each becomes a line end where it ends a line, else a space.
pub open spec fn untagged(s: Seq<char>) -> Seq<char> {
    tag_scan(s).out
}

fn remove_tags(cs: &Vec<char>) -> (r: Vec<char>)
    ensures
        r@ == untagged(cs@),
{
    let mut out: Vec<char> = Vec::new();
    let mut in_tag = false;
    let mut name: Vec<char> = Vec::new();
    let mut naming = false;
    let mut i: usize = 0;
    assert(cs@.take(0) =~= seq![]);
    assert(out@ =~= seq![]);
    assert(name@ =~= seq![]);
    while i < cs.len()
        invariant
            i <= cs@.len(),
            tag_scan(cs@.take(i as int)) == (TagScan { out: out@, in_tag, name: name@, naming }),
        decreases cs.len() - i,
    {
        assert(cs@.take(i + 1).drop_last() =~= cs@.take(i as int));
        assert(cs@.take(i + 1).last() == cs@[i as int]);
        let c = cs[i];
        if c == '<' {
            in_tag = true;
            naming = true;
            name = Vec::new();
            assert(name@ =~= seq![]);
        } else if !in_tag {
            out.push(c);
        } else if c == '>' {
            in_tag = false;
            out.push(
                if block(&name) {
                    '\n'
                } else {
                    ' '
                },
            );
        } else if naming {
            if c.is_alphanumeric() || c == '/' {
                name.push(c);
            } else {
                naming = false;
            }
        }
        i += 1;
    }
    assert(cs@.take(i as int) =~= cs@);
    out
}

// ---------------------------------------------------------------------------------------------
// Text

/// A text with a few common entities decoded, one after the other.
pub open spec fn decoded(s: Seq<char>) -> Seq<char> {
    let s = replaced(s, "&nbsp;"@, " "@);
    let s = replaced(s, "&amp;"@, "&"@);
    let s = replaced(s, "&quot;"@, "\""@);
    let s = replaced(s, "&#39;"@, "'"@);
    let s = replaced(s, "&rsquo;"@, "’"@);
    let s = replaced(s, "&lsquo;"@, "‘"@);
    let s = replaced(s, "&rdquo;"@, "”"@);
    let s = replaced(s, "&ldquo;"@, "“"@);
    let s = replaced(s, "&mdash;"@, "—"@);
    let s = replaced(s, "&ndash;"@, "–"@);
    let s = replaced(s, "&lt;"@, "<"@);
    replaced(s, "&gt;"@, ">"@)
}

fn decode(s: &Vec<char>) -> (r: Vec<char>)
    ensures
        r@ == decoded(s@),
{
    proof {
        reveal_strlit("&nbsp;");
        reveal_strlit("&amp;");
        reveal_strlit("&quot;");
        reveal_strlit("&#39;");
        reveal_strlit("&rsquo;");
        reveal_strlit("&lsquo;");
        reveal_strlit("&rdquo;");
        reveal_strlit("&ldquo;");
        reveal_strlit("&mdash;");
        reveal_strlit("&ndash;");
        reveal_strlit("&lt;");
        reveal_strlit("&gt;");
    }
    let s = replace_chars(s, "&nbsp;", " ");
    let s = replace_chars(&s, "&amp;", "&");
    let s = replace_chars(&s, "&quot;", "\"");
    let s = replace_chars(&s, "&#39;", "'");
    let s = replace_chars(&s, "&rsquo;", "’");
    let s = replace_chars(&s, "&lsquo;", "‘");
    let s = replace_chars(&s, "&rdquo;", "”");
    let s = replace_chars(&s, "&ldquo;", "“");
    let s = replace_chars(&s, "&mdash;", "—");
    let s = replace_chars(&s, "&ndash;", "–");
    let s = replace_chars(&s, "&lt;", "<");
    replace_chars(&s, "&gt;", ">")
}

/// The lines that are long enough to be prose, their words one space apart.
pub open spec fn blocks(lines: Seq<Seq<char>>) -> Seq<Seq<char>>
    decreases lines.len(),
{
    if lines.len() == 0 {
        seq![]
    } else {
        let line = joined(words(lines.last()), " "@);
        if line.len() >= MIN_BLOCK_CHARS {
            blocks(lines.drop_last()).push(line)
        } else {
            blocks(lines.drop_last())
        }
    }
}

/// The prose of a page: without containers and tags, entities decoded, the long lines only.
pub open spec fn page_blocks(html: Seq<char>) -> Seq<Seq<char>> {
    blocks(pieces(decoded(untagged(without_containers(html, containers()))), '\n'))
}

/// Strips `<script>`/`<style>`/`<nav>`-like containers and all tags, decodes a few common
/// entities, and keeps only text blocks long enough to be prose, one per line.
pub fn html_to_text(html: &str) -> (r: String)
    ensures
        r@ == joined(page_blocks(html@), "\n"@),
{
    let stripped = remove_containers(html);
    let lines = split_at_char(&decode(&remove_tags(&stripped)), '\n');
    let ghost all = views(lines@);
    let mut kept: Vec<String> = Vec::new();
    let mut i: usize = 0;
    assert(all.take(0) =~= seq![]);
    assert(views(kept@) =~= seq![]);
    while i < lines.len()
        invariant
            i <= lines@.len(),
            all == views(lines@),
            views(kept@) == blocks(all.take(i as int)),
        decreases lines.len() - i,
    {
        assert(all.take(i + 1).drop_last() =~= all.take(i as int));
        assert(all.take(i + 1).last() == lines@[i as int]@);
        let line = join(&split_words(&chars_of(lines[i].as_str())), " ");
        let ghost done = views(kept@);
        let ghost lv = line@;
        if chars_of(line.as_str()).len() >= MIN_BLOCK_CHARS {
            kept.push(line);
            assert(views(kept@) =~= done.push(lv));
        }
        i += 1;
    }
    assert(all.take(i as int) =~= all);
    join(&kept, "\n")
}

/// What stands in a script never reaches the text: it does not depend on it.
pub proof fn law_scripts_do_not_count(p: Seq<char>, x: Seq<char>, y: Seq<char>, q: Seq<char>)
    requires
        !occurs(ascii_lower(x), "</script>"@),
        !occurs(ascii_lower(y), "</script>"@),
    ensures
        page_blocks(p + "<script>"@ + x + "</script>"@ + q) == page_blocks(
            p + "<script>"@ + y + "</script>"@ + q,
        ),
{
    let tag = "script"@;
    reveal_strlit("script");
    reveal_strlit("<");
    reveal_strlit("</");
    reveal_strlit(">");
    reveal_strlit("<script>");
    reveal_strlit("</script>");
    assert(closing(tag) =~= "</script>"@);
    assert(opening(tag) + ">"@ =~= "<script>"@);
    lemma_cleared_alike(p, tag, x, y, q);
    let (s, t) = (around(p, tag, x, q), around(p, tag, y, q));
    assert(containers()[0] == tag);
    lemma_without_alike(s, t, containers());
}

/// Every block that is kept is long enough to be prose.
pub proof fn law_blocks_are_prose(html: Seq<char>, i: int)
    requires
        0 <= i < page_blocks(html).len(),
    ensures
        page_blocks(html)[i].len() >= MIN_BLOCK_CHARS,
{
    lemma_blocks(
        pieces(decoded(untagged(without_containers(html, containers()))), '\n'),
        i,
    );
}

proof fn lemma_blocks(lines: Seq<Seq<char>>, i: int)
    requires
        0 <= i < blocks(lines).len(),
    ensures
        blocks(lines)[i].len() >= MIN_BLOCK_CHARS,
    decreases lines.len(),
{
    if i < blocks(lines.drop_last()).len() {
        lemma_blocks(lines.drop_last(), i);
    }
}

// ---------------------------------------------------------------------------------------------
// Pages

/// The content type of a reply, if it has one, is one that may hold an article.
pub open spec fn is_readable(content_type: Option<Seq<char>>) -> bool {
    match content_type {
        Some(t) => occurs(t, "html"@) || occurs(t, "xml"@),
        None => true,
    }
}

pub fn readable(content_type: Option<&str>) -> (r: bool)
    ensures
        r == is_readable(crate::text::opt_str(content_type)),
{
    match content_type {
        Some(t) => {
            let t = chars_of(t);
            proof {
                lemma_first_from(t@, "html"@, 0);
                lemma_first_from(t@, "xml"@, 0);
            }
            find_chars(&t, &chars_of("html"), 0).is_some() || find_chars(
                &t,
                &chars_of("xml"),
                0,
            ).is_some()
        },
        None => true,
    }
}

/// The body of an article, at most so long; nothing where the page holds no prose.
pub open spec fn body_of(html: Seq<char>) -> Option<Seq<char>> {
    let text = joined(page_blocks(html), "\n"@);
    if text.len() < MIN_BLOCK_CHARS {
        None
    } else if text.len() > MAX_BODY_CHARS {
        Some(text.take(MAX_BODY_CHARS as int))
    } else {
        Some(text)
    }
}

/// What a fetched page yields.
pub fn article_text(html: &str) -> (r: Option<String>)
    ensures
        crate::text::opt_view(r) == body_of(html@),
{
    let text = html_to_text(html);
    let cs = chars_of(text.as_str());
    if cs.len() < MIN_BLOCK_CHARS {
        None
    } else if cs.len() > MAX_BODY_CHARS {
        let cut = sub_chars(&cs, 0, MAX_BODY_CHARS);
        assert(cut@ =~= cs@.take(MAX_BODY_CHARS as int));
        Some(string_of(&cut))
    } else {
        Some(text)
    }
}

} // verus!
