//! Orderings: lists sorted without repetition, and stable rankings.

use vstd::prelude::*;

use crate::text::{
    before, lemma_before_irreflexive, lemma_before_total, lemma_before_transitive, str_before,
    str_eq, views,
};

verus! {

// ---------------------------------------------------------------------------------------------
// Sorted lists of pairs of texts

/// The order of pairs of texts: by the first, then by the second.
pub open spec fn pair_before(a: (Seq<char>, Seq<char>), b: (Seq<char>, Seq<char>)) -> bool {
    before(a.0, b.0) || (a.0 == b.0 && before(a.1, b.1))
}

/// The sorted list with one more pair, unless it holds it already.
pub open spec fn pair_added(
    list: Seq<(Seq<char>, Seq<char>)>,
    x: (Seq<char>, Seq<char>),
) -> Seq<(Seq<char>, Seq<char>)>
    decreases list.len(),
{
    if list.len() == 0 {
        seq![x]
    } else if list.last() == x {
        list
    } else if pair_before(list.last(), x) {
        list.push(x)
    } else {
        pair_added(list.drop_last(), x).push(list.last())
    }
}

/// The pairs of a list, sorted, each once.
pub open spec fn sorted_pairs(s: Seq<(Seq<char>, Seq<char>)>) -> Seq<(Seq<char>, Seq<char>)>
    decreases s.len(),
{
    if s.len() == 0 {
        seq![]
    } else {
        pair_added(sorted_pairs(s.drop_last()), s.last())
    }
}

/// Each pair stands before those that follow it.
pub open spec fn pairs_ascend(s: Seq<(Seq<char>, Seq<char>)>) -> bool {
    forall|i: int, j: int| 0 <= i < j < s.len() ==> pair_before(#[trigger] s[i], #[trigger] s[j])
}

proof fn lemma_pair_order(
    a: (Seq<char>, Seq<char>),
    b: (Seq<char>, Seq<char>),
    c: (Seq<char>, Seq<char>),
)
    ensures
        pair_before(a, b) && pair_before(b, c) ==> pair_before(a, c),
        pair_before(a, b) || a == b || pair_before(b, a),
        !pair_before(a, a),
{
    lemma_before_total(a.0, b.0);
    lemma_before_total(a.1, b.1);
    lemma_before_irreflexive(a.0);
    lemma_before_irreflexive(a.1);
    if before(a.0, b.0) && before(b.0, c.0) {
        lemma_before_transitive(a.0, b.0, c.0);
    }
    if before(a.1, b.1) && before(b.1, c.1) {
        lemma_before_transitive(a.1, b.1, c.1);
    }
}

proof fn lemma_pair_added(list: Seq<(Seq<char>, Seq<char>)>, x: (Seq<char>, Seq<char>))
    requires
        pairs_ascend(list),
    ensures
        pairs_ascend(pair_added(list, x)),
        forall|y: (Seq<char>, Seq<char>)| #[trigger]
            pair_added(list, x).contains(y) <==> y == x || list.contains(y),
    decreases list.len(),
{
    let r = pair_added(list, x);
    if list.len() == 0 {
        assert(r[0] == x);
        assert forall|y: (Seq<char>, Seq<char>)| #[trigger] r.contains(y) <==> y == x
            || list.contains(y) by {}
    } else if list.last() == x {
        assert(list.contains(x)) by {
            assert(list[list.len() - 1] == x);
        }
    } else if pair_before(list.last(), x) {
        assert forall|i: int, j: int| 0 <= i < j < r.len() implies pair_before(
            #[trigger] r[i],
            #[trigger] r[j],
        ) by {
            if j == list.len() {
                lemma_pair_order(list[i], list.last(), x);
                if i < list.len() - 1 {
                    assert(pair_before(list[i], list[list.len() - 1]));
                }
            }
        }
        assert forall|y: (Seq<char>, Seq<char>)| #[trigger] r.contains(y) <==> y == x
            || list.contains(y) by {
            if list.contains(y) {
                let k = choose|k: int| 0 <= k < list.len() && list[k] == y;
                assert(r[k] == y);
            }
            assert(r[list.len() as int] == x);
        }
    } else {
        let most = list.drop_last();
        let l = list.last();
        lemma_pair_added(most, x);
        lemma_pair_order(l, x, x);
        let inner = pair_added(most, x);
        assert(r == inner.push(l));
        assert forall|i: int, j: int| 0 <= i < j < r.len() implies pair_before(
            #[trigger] r[i],
            #[trigger] r[j],
        ) by {
            if j == inner.len() {
                assert(inner.contains(inner[i]));
                if inner[i] != x {
                    let k = choose|k: int| 0 <= k < most.len() && most[k] == inner[i];
                    assert(pair_before(list[k], list[list.len() - 1]));
                }
            } else {
                assert(pair_before(inner[i], inner[j]));
            }
        }
        assert forall|y: (Seq<char>, Seq<char>)| #[trigger] r.contains(y) <==> y == x
            || list.contains(y) by {
            if r.contains(y) {
                let k = choose|k: int| 0 <= k < r.len() && r[k] == y;
                if k < inner.len() {
                    assert(inner.contains(y)) by {
                        assert(inner[k] == y);
                    }
                    if y != x {
                        let m = choose|m: int| 0 <= m < most.len() && most[m] == y;
                        assert(list[m] == y);
                    }
                } else {
                    assert(list[list.len() - 1] == y);
                }
            }
            if y == x || list.contains(y) {
                if y == l {
                    assert(r[inner.len() as int] == y);
                } else {
                    if y != x {
                        let m = choose|m: int| 0 <= m < list.len() && list[m] == y;
                        assert(most[m] == y);
                        assert(most.contains(y));
                    }
                    assert(inner.contains(y));
                    let k = choose|k: int| 0 <= k < inner.len() && inner[k] == y;
                    assert(r[k] == y);
                }
            }
        }
    }
}

/// The sorted pairs ascend strictly, and they are the pairs of the list.
pub proof fn lemma_sorted_pairs(s: Seq<(Seq<char>, Seq<char>)>)
    ensures
        pairs_ascend(sorted_pairs(s)),
        forall|y: (Seq<char>, Seq<char>)| #[trigger] sorted_pairs(s).contains(y) <==> s.contains(y),
    decreases s.len(),
{
    if s.len() > 0 {
        let most = s.drop_last();
        lemma_sorted_pairs(most);
        lemma_pair_added(sorted_pairs(most), s.last());
        assert forall|y: (Seq<char>, Seq<char>)| #[trigger]
            sorted_pairs(s).contains(y) <==> s.contains(y) by {
            if s.contains(y) {
                let k = choose|k: int| 0 <= k < s.len() && s[k] == y;
                if k < most.len() {
                    assert(most[k] == y);
                    assert(most.contains(y));
                }
            }
            if most.contains(y) {
                let k = choose|k: int| 0 <= k < most.len() && most[k] == y;
                assert(s[k] == y);
            }
            if y == s.last() {
                assert(s[s.len() - 1] == y);
            }
        }
    }
}

// ---------------------------------------------------------------------------------------------
// Sorted lists of texts

/// The sorted list with one more text, unless it holds it already.
pub open spec fn text_added(list: Seq<Seq<char>>, x: Seq<char>) -> Seq<Seq<char>>
    decreases list.len(),
{
    if list.len() == 0 {
        seq![x]
    } else if list.last() == x {
        list
    } else if before(list.last(), x) {
        list.push(x)
    } else {
        text_added(list.drop_last(), x).push(list.last())
    }
}

/// The texts of a list, sorted, each once.
pub open spec fn sorted_texts(s: Seq<Seq<char>>) -> Seq<Seq<char>>
    decreases s.len(),
{
    if s.len() == 0 {
        seq![]
    } else {
        text_added(sorted_texts(s.drop_last()), s.last())
    }
}

/// Inserts a text into a sorted list, unless it is there.
fn add_text(list: &mut Vec<String>, x: &str)
    ensures
        views(final(list)@) == text_added(views(old(list)@), x@),
{
    let ghost all = views(list@);
    let mut n: usize = list.len();
    let ghost mut tail: Seq<Seq<char>> = seq![];
    assert(all.take(n as int) =~= all);
    assert(text_added(all, x@) =~= text_added(all.take(n as int), x@) + tail);
    while n > 0
        invariant
            n <= list@.len(),
            all == views(list@),
            all == views(old(list)@),
            tail == all.skip(n as int),
            text_added(all, x@) == text_added(all.take(n as int), x@) + tail,
        decreases n,
    {
        let ghost head = all.take(n as int);
        if str_eq(list[n - 1].as_str(), x) {
            assert(head.last() == x@);
            assert(head + tail =~= all);
            return;
        }
        if str_before(list[n - 1].as_str(), x) {
            assert(text_added(head, x@) == head.push(x@));
            list.insert(n, x.to_owned());
            assert(views(list@) =~= head.push(x@) + tail);
            return;
        }
        proof {
            assert(head.drop_last() =~= all.take(n - 1));
            assert(text_added(head, x@) == text_added(all.take(n - 1), x@).push(all[n - 1]));
            tail = all.skip(n - 1);
            assert(text_added(all.take(n - 1), x@).push(all[n - 1]) + all.skip(n as int)
                =~= text_added(all.take(n - 1), x@) + tail);
        }
        n -= 1;
    }
    assert(all.take(0) =~= seq![]);
    list.insert(0, x.to_owned());
    assert(views(list@) =~= seq![x@] + tail);
}

/// `[String]::sort` and `dedup`.
pub fn sort_texts(list: &Vec<String>) -> (r: Vec<String>)
    ensures
        views(r@) == sorted_texts(views(list@)),
{
    let mut out: Vec<String> = Vec::new();
    let mut i: usize = 0;
    assert(views(list@).take(0) =~= seq![]);
    assert(views(out@) =~= seq![]);
    while i < list.len()
        invariant
            i <= list@.len(),
            views(out@) == sorted_texts(views(list@).take(i as int)),
        decreases list.len() - i,
    {
        assert(views(list@).take(i + 1).drop_last() =~= views(list@).take(i as int));
        add_text(&mut out, list[i].as_str());
        i += 1;
    }
    assert(views(list@).take(i as int) =~= views(list@));
    out
}

/// What a list of named texts holds.
pub open spec fn pairs(v: Seq<(&'static str, String)>) -> Seq<(Seq<char>, Seq<char>)> {
    Seq::new(v.len(), |i: int| (v[i].0@, v[i].1@))
}

fn add_pair(list: &mut Vec<(&'static str, String)>, kind: &'static str, x: String)
    ensures
        pairs(final(list)@) == pair_added(pairs(old(list)@), (kind@, x@)),
{
    let ghost all = pairs(list@);
    let ghost y = (kind@, x@);
    let mut n: usize = list.len();
    let ghost mut tail: Seq<(Seq<char>, Seq<char>)> = seq![];
    assert(all.take(n as int) =~= all);
    assert(pair_added(all, y) =~= pair_added(all.take(n as int), y) + tail);
    while n > 0
        invariant
            n <= list@.len(),
            all == pairs(list@),
            all == pairs(old(list)@),
            y == (kind@, x@),
            tail == all.skip(n as int),
            pair_added(all, y) == pair_added(all.take(n as int), y) + tail,
        decreases n,
    {
        let ghost head = all.take(n as int);
        assert(head.last() == all[n - 1]);
        let same_kind = str_eq(list[n - 1].0, kind);
        if same_kind && str_eq(list[n - 1].1.as_str(), x.as_str()) {
            assert(head.last() == y);
            assert(head + tail =~= all);
            return;
        }
        if str_before(list[n - 1].0, kind) || (same_kind && str_before(
            list[n - 1].1.as_str(),
            x.as_str(),
        )) {
            assert(pair_added(head, y) == head.push(y));
            list.insert(n, (kind, x));
            assert(pairs(list@) =~= head.push(y) + tail);
            return;
        }
        proof {
            assert(head.drop_last() =~= all.take(n - 1));
            assert(pair_added(head, y) == pair_added(all.take(n - 1), y).push(all[n - 1]));
            tail = all.skip(n - 1);
            assert(pair_added(all.take(n - 1), y).push(all[n - 1]) + all.skip(n as int)
                =~= pair_added(all.take(n - 1), y) + tail);
        }
        n -= 1;
    }
    assert(all.take(0) =~= seq![]);
    list.insert(0, (kind, x));
    assert(pairs(list@) =~= seq![y] + tail);
}

/// `sort` and `dedup` on pairs.
pub fn sort_pairs(list: &Vec<(&'static str, String)>) -> (r: Vec<(&'static str, String)>)
    ensures
        pairs(r@) == sorted_pairs(pairs(list@)),
{
    let mut out: Vec<(&'static str, String)> = Vec::new();
    let mut i: usize = 0;
    assert(pairs(list@).take(0) =~= seq![]);
    assert(pairs(out@) =~= seq![]);
    while i < list.len()
        invariant
            i <= list@.len(),
            pairs(out@) == sorted_pairs(pairs(list@).take(i as int)),
        decreases list.len() - i,
    {
        assert(pairs(list@).take(i + 1).drop_last() =~= pairs(list@).take(i as int));
        add_pair(&mut out, list[i].0, list[i].1.clone());
        i += 1;
    }
    assert(pairs(list@).take(i as int) =~= pairs(list@));
    out
}

// ---------------------------------------------------------------------------------------------
// Rankings

/// The ranking with one more position, behind those whose key is at least as large.
pub open spec fn placed(rank: Seq<int>, keys: Seq<int>, x: int) -> Seq<int>
    decreases rank.len(),
{
    if rank.len() == 0 {
        seq![x]
    } else if keys[rank.last()] >= keys[x] {
        rank.push(x)
    } else {
        placed(rank.drop_last(), keys, x).push(rank.last())
    }
}

pub open spec fn ranking_upto(keys: Seq<int>, n: int) -> Seq<int>
    decreases n,
{
    if n <= 0 {
        seq![]
    } else {
        placed(ranking_upto(keys, n - 1), keys, n - 1)
    }
}

/// The positions of a list in descending order of their keys; positions with equal keys keep
/// their order.
pub open spec fn ranking(keys: Seq<int>) -> Seq<int> {
    ranking_upto(keys, keys.len() as int)
}

/// `a` ranks before `b`.
pub open spec fn ranks_before(keys: Seq<int>, a: int, b: int) -> bool {
    keys[a] > keys[b] || (keys[a] == keys[b] && a < b)
}

proof fn lemma_placed(rank: Seq<int>, keys: Seq<int>, x: int)
    requires
        forall|i: int| 0 <= i < rank.len() ==> 0 <= #[trigger] rank[i] < x,
        forall|i: int, j: int|
            0 <= i < j < rank.len() ==> ranks_before(keys, #[trigger] rank[i], #[trigger] rank[j]),
    ensures
        placed(rank, keys, x).len() == rank.len() + 1,
        forall|i: int|
            0 <= i < placed(rank, keys, x).len() ==> (0 <= #[trigger] placed(rank, keys, x)[i] < x
                && rank.contains(placed(rank, keys, x)[i])) || placed(rank, keys, x)[i] == x,
        forall|i: int, j: int|
            0 <= i < j < placed(rank, keys, x).len() ==> ranks_before(
                keys,
                #[trigger] placed(rank, keys, x)[i],
                #[trigger] placed(rank, keys, x)[j],
            ),
        forall|p: int| #[trigger]
            placed(rank, keys, x).contains(p) <==> p == x || rank.contains(p),
    decreases rank.len(),
{
    let r = placed(rank, keys, x);
    if rank.len() == 0 {
        assert(r[0] == x);
        assert forall|p: int| #[trigger] r.contains(p) <==> p == x || rank.contains(p) by {}
    } else if keys[rank.last()] >= keys[x] {
        assert forall|i: int, j: int| 0 <= i < j < r.len() implies ranks_before(
            keys,
            #[trigger] r[i],
            #[trigger] r[j],
        ) by {
            if j == rank.len() && i < rank.len() - 1 {
                assert(ranks_before(keys, rank[i], rank[rank.len() - 1]));
            }
        }
        assert forall|p: int| #[trigger] r.contains(p) <==> p == x || rank.contains(p) by {
            assert(r[rank.len() as int] == x);
            if rank.contains(p) {
                let k = choose|k: int| 0 <= k < rank.len() && rank[k] == p;
                assert(r[k] == p);
            }
        }
    } else {
        let most = rank.drop_last();
        let l = rank.last();
        lemma_placed(most, keys, x);
        let inner = placed(most, keys, x);
        assert(r == inner.push(l));
        assert forall|p: int| #[trigger] r.contains(p) <==> p == x || rank.contains(p) by {
            if r.contains(p) {
                let k = choose|k: int| 0 <= k < r.len() && r[k] == p;
                if k < inner.len() {
                    assert(inner[k] == p);
                    assert(inner.contains(p));
                    if p != x {
                        let m = choose|m: int| 0 <= m < most.len() && most[m] == p;
                        assert(rank[m] == p);
                    }
                } else {
                    assert(rank[rank.len() - 1] == p);
                }
            }
            if p == x || rank.contains(p) {
                if p == l {
                    assert(r[inner.len() as int] == p);
                } else {
                    if p != x {
                        let m = choose|m: int| 0 <= m < rank.len() && rank[m] == p;
                        assert(most[m] == p);
                        assert(most.contains(p));
                    }
                    assert(inner.contains(p));
                    let k = choose|k: int| 0 <= k < inner.len() && inner[k] == p;
                    assert(r[k] == p);
                }
            }
        }
        assert forall|i: int, j: int| 0 <= i < j < r.len() implies ranks_before(
            keys,
            #[trigger] r[i],
            #[trigger] r[j],
        ) by {
            if j == inner.len() {
                assert(inner.contains(inner[i]));
                if inner[i] != x {
                    let k = choose|k: int| 0 <= k < most.len() && most[k] == inner[i];
                    assert(ranks_before(keys, rank[k], rank[rank.len() - 1]));
                }
            } else {
                assert(ranks_before(keys, inner[i], inner[j]));
            }
        }
        assert forall|i: int| 0 <= i < r.len() implies (0 <= #[trigger] r[i] < x && rank.contains(
            r[i],
        )) || r[i] == x by {
            assert(r.contains(r[i]));
            if r[i] != x {
                let m = choose|m: int| 0 <= m < rank.len() && rank[m] == r[i];
                assert(0 <= rank[m] < x);
            }
        }
    }
}

proof fn lemma_ranking_upto(keys: Seq<int>, n: int)
    requires
        0 <= n <= keys.len(),
    ensures
        ranking_upto(keys, n).len() == n,
        forall|i: int| 0 <= i < n ==> 0 <= #[trigger] ranking_upto(keys, n)[i] < n,
        forall|i: int, j: int|
            0 <= i < j < n ==> ranks_before(
                keys,
                #[trigger] ranking_upto(keys, n)[i],
                #[trigger] ranking_upto(keys, n)[j],
            ),
        forall|p: int| 0 <= p < n ==> #[trigger] ranking_upto(keys, n).contains(p),
    decreases n,
{
    if n > 0 {
        lemma_ranking_upto(keys, n - 1);
        lemma_placed(ranking_upto(keys, n - 1), keys, n - 1);
    }
}

/// A ranking holds each position of the list once, larger keys first, and positions with equal
/// keys in their order.
pub proof fn lemma_ranking(keys: Seq<int>)
    ensures
        ranking(keys).len() == keys.len(),
        forall|i: int| 0 <= i < keys.len() ==> 0 <= #[trigger] ranking(keys)[i] < keys.len(),
        forall|i: int, j: int|
            0 <= i < j < keys.len() ==> ranks_before(
                keys,
                #[trigger] ranking(keys)[i],
                #[trigger] ranking(keys)[j],
            ),
        forall|p: int| 0 <= p < keys.len() ==> #[trigger] ranking(keys).contains(p),
{
    lemma_ranking_upto(keys, keys.len() as int);
}

/// What a list of machine integers holds.
pub open spec fn ints(v: Seq<i128>) -> Seq<int> {
    Seq::new(v.len(), |i: int| v[i] as int)
}

/// What a list of positions holds.
pub open spec fn positions(v: Seq<usize>) -> Seq<int> {
    Seq::new(v.len(), |i: int| v[i] as int)
}

fn place(rank: &mut Vec<usize>, keys: &Vec<i128>, x: usize)
    requires
        x < keys@.len(),
        forall|i: int| 0 <= i < old(rank)@.len() ==> #[trigger] old(rank)@[i] < keys@.len(),
    ensures
        positions(final(rank)@) == placed(positions(old(rank)@), ints(keys@), x as int),
        forall|i: int| 0 <= i < final(rank)@.len() ==> #[trigger] final(rank)@[i] < keys@.len(),
{
    let ghost all = positions(rank@);
    let ghost ks = ints(keys@);
    let mut n: usize = rank.len();
    assert(all.take(n as int) =~= all);
    assert(placed(all, ks, x as int) =~= placed(all.take(n as int), ks, x as int) + all.skip(
        n as int,
    ));
    while n > 0 && keys[rank[n - 1]] < keys[x]
        invariant
            n <= rank@.len(),
            all == positions(rank@),
            ks == ints(keys@),
            x < keys@.len(),
            forall|i: int| 0 <= i < rank@.len() ==> #[trigger] rank@[i] < keys@.len(),
            placed(all, ks, x as int) == placed(all.take(n as int), ks, x as int) + all.skip(
                n as int,
            ),
        decreases n,
    {
        proof {
            let head = all.take(n as int);
            assert(head.drop_last() =~= all.take(n - 1));
            assert(head.last() == all[n - 1]);
            assert(placed(head, ks, x as int) == placed(all.take(n - 1), ks, x as int).push(
                all[n - 1],
            ));
            assert(placed(all.take(n - 1), ks, x as int).push(all[n - 1]) + all.skip(n as int)
                =~= placed(all.take(n - 1), ks, x as int) + all.skip(n - 1));
        }
        n -= 1;
    }
    proof {
        let head = all.take(n as int);
        if n > 0 {
            assert(head.last() == all[n - 1]);
        } else {
            assert(head =~= seq![]);
        }
        assert(placed(head, ks, x as int) =~= head.push(x as int));
    }
    rank.insert(n, x);
    assert(positions(rank@) =~= all.take(n as int).push(x as int) + all.skip(n as int));
}

/// The positions of `keys` in descending order of their keys, stably.
pub fn rank_descending(keys: &Vec<i128>) -> (r: Vec<usize>)
    ensures
        positions(r@) == ranking(ints(keys@)),
        r@.len() == keys@.len(),
        forall|i: int| 0 <= i < r@.len() ==> #[trigger] r@[i] < keys@.len(),
{
    let mut out: Vec<usize> = Vec::new();
    let mut i: usize = 0;
    assert(positions(out@) =~= seq![]);
    while i < keys.len()
        invariant
            i <= keys@.len(),
            positions(out@) == ranking_upto(ints(keys@), i as int),
            forall|j: int| 0 <= j < out@.len() ==> #[trigger] out@[j] < keys@.len(),
        decreases keys.len() - i,
    {
        place(&mut out, keys, i);
        i += 1;
    }
    proof {
        lemma_ranking(ints(keys@));
        assert(positions(out@).len() == out@.len());
    }
    out
}

// ---------------------------------------------------------------------------------------------
// Rankings by text

/// The order of optional texts: nothing before everything, then the order of texts.
pub open spec fn opt_before(a: Option<Seq<char>>, b: Option<Seq<char>>) -> bool {
    match (a, b) {
        (None, None) => false,
        (None, Some(_)) => true,
        (Some(_), None) => false,
        (Some(x), Some(y)) => before(x, y),
    }
}

/// How many of the keys stand before `k`.
pub open spec fn smaller(keys: Seq<Option<Seq<char>>>, k: Option<Seq<char>>) -> int
    decreases keys.len(),
{
    if keys.len() == 0 {
        0
    } else {
        smaller(keys.drop_last(), k) + if opt_before(keys.last(), k) {
            1int
        } else {
            0
        }
    }
}

/// The positions of a list in ascending order of their keys; positions with equal keys keep
/// their order.
pub open spec fn ascending(keys: Seq<Option<Seq<char>>>) -> Seq<int> {
    ranking(Seq::new(keys.len(), |i: int| -smaller(keys, keys[i])))
}

pub proof fn lemma_smaller(keys: Seq<Option<Seq<char>>>, a: Option<Seq<char>>, b: Option<Seq<char>>)
    ensures
        opt_before(a, b) ==> smaller(keys, a) <= smaller(keys, b),
        opt_before(a, b) && keys.contains(a) ==> smaller(keys, a) < smaller(keys, b),
        0 <= smaller(keys, a) <= keys.len(),
    decreases keys.len(),
{
    if keys.len() > 0 {
        let most = keys.drop_last();
        let l = keys.last();
        lemma_smaller(most, a, b);
        if opt_before(a, b) {
            if opt_before(l, a) {
                if let (Some(x), Some(y), Some(z)) = (l, a, b) {
                    lemma_before_transitive(x, y, z);
                }
            }
            if keys.contains(a) && l != a {
                let k = choose|k: int| 0 <= k < keys.len() && keys[k] == a;
                assert(most[k] == a);
            }
            if l == a {
                if let Some(x) = a {
                    lemma_before_irreflexive(x);
                }
            }
        }
    }
}

/// In ascending order no position stands before one with a smaller key, equal keys keep their
/// order, and each position stands there once.
pub proof fn law_ascending_is_a_stable_sort(keys: Seq<Option<Seq<char>>>)
    ensures
        ascending(keys).len() == keys.len(),
        forall|i: int| 0 <= i < keys.len() ==> 0 <= #[trigger] ascending(keys)[i] < keys.len(),
        forall|i: int, j: int|
            0 <= i < j < keys.len() ==> !opt_before(
                keys[#[trigger] ascending(keys)[j]],
                keys[#[trigger] ascending(keys)[i]],
            ),
        forall|i: int, j: int|
            0 <= i < j < keys.len() && keys[#[trigger] ascending(keys)[i]]
                == keys[#[trigger] ascending(keys)[j]] ==> ascending(keys)[i] < ascending(keys)[j],
        forall|p: int| 0 <= p < keys.len() ==> #[trigger] ascending(keys).contains(p),
{
    let ranks = Seq::new(keys.len(), |i: int| -smaller(keys, keys[i]));
    lemma_ranking(ranks);
    assert forall|i: int, j: int| 0 <= i < j < keys.len() implies !opt_before(
        keys[#[trigger] ascending(keys)[j]],
        keys[#[trigger] ascending(keys)[i]],
    ) by {
        let a = keys[ascending(keys)[j]];
        let b = keys[ascending(keys)[i]];
        assert(ranks_before(ranks, ranking(ranks)[i], ranking(ranks)[j]));
        lemma_smaller(keys, a, b);
        assert(keys.contains(a));
    }
    assert forall|i: int, j: int|
        0 <= i < j < keys.len() && keys[#[trigger] ascending(keys)[i]]
            == keys[#[trigger] ascending(keys)[j]] implies ascending(keys)[i]
        < ascending(keys)[j] by {
        assert(ranks_before(ranks, ranking(ranks)[i], ranking(ranks)[j]));
    }
}

/// What a list of optional strings holds.
pub open spec fn opt_views(v: Seq<Option<String>>) -> Seq<Option<Seq<char>>> {
    Seq::new(v.len(), |i: int| crate::text::opt_view(v[i]))
}

fn stands_before(a: &Option<String>, b: &Option<String>) -> (r: bool)
    ensures
        r == opt_before(crate::text::opt_view(*a), crate::text::opt_view(*b)),
{
    match (a, b) {
        (None, None) => false,
        (None, Some(_)) => true,
        (Some(_), None) => false,
        (Some(x), Some(y)) => str_before(x.as_str(), y.as_str()),
    }
}

/// The positions of `keys` in ascending order, stably.
pub fn rank_ascending(keys: &Vec<Option<String>>) -> (r: Vec<usize>)
    ensures
        positions(r@) == ascending(opt_views(keys@)),
        r@.len() == keys@.len(),
        forall|i: int| 0 <= i < r@.len() ==> #[trigger] r@[i] < keys@.len(),
{
    let ghost ks = opt_views(keys@);
    let mut ranks: Vec<i128> = Vec::new();
    let mut i: usize = 0;
    while i < keys.len()
        invariant
            i <= keys@.len(),
            ks == opt_views(keys@),
            ranks@.len() == i,
            forall|j: int| 0 <= j < i ==> #[trigger] ranks@[j] == -smaller(ks, ks[j]),
        decreases keys.len() - i,
    {
        let n = count_smaller(keys, i);
        ranks.push(-n);
        i += 1;
    }
    assert(ints(ranks@) =~= Seq::new(ks.len(), |i: int| -smaller(ks, ks[i])));
    rank_descending(&ranks)
}

/// The positions of a list in descending order of their keys; positions with equal keys keep
/// their order.
pub open spec fn descending(keys: Seq<Option<Seq<char>>>) -> Seq<int> {
    ranking(Seq::new(keys.len(), |i: int| smaller(keys, keys[i])))
}

fn count_smaller(keys: &Vec<Option<String>>, i: usize) -> (r: i128)
    requires
        i < keys@.len(),
    ensures
        r == smaller(opt_views(keys@), opt_views(keys@)[i as int]),
        0 <= r <= keys@.len(),
{
    let ghost ks = opt_views(keys@);
    let mut n: i128 = 0;
    let mut j: usize = 0;
    assert(ks.take(0) =~= seq![]);
    while j < keys.len()
        invariant
            j <= keys@.len(),
            i < keys@.len(),
            ks == opt_views(keys@),
            0 <= n <= j,
            n == smaller(ks.take(j as int), ks[i as int]),
        decreases keys.len() - j,
    {
        assert(ks.take(j + 1).drop_last() =~= ks.take(j as int));
        assert(ks.take(j + 1).last() == ks[j as int]);
        if stands_before(&keys[j], &keys[i]) {
            n += 1;
        }
        j += 1;
    }
    assert(ks.take(j as int) =~= ks);
    n
}

/// The positions of `keys` in descending order, stably.
pub fn rank_texts_descending(keys: &Vec<Option<String>>) -> (r: Vec<usize>)
    ensures
        positions(r@) == descending(opt_views(keys@)),
        r@.len() == keys@.len(),
        forall|i: int| 0 <= i < r@.len() ==> #[trigger] r@[i] < keys@.len(),
{
    let ghost ks = opt_views(keys@);
    let mut ranks: Vec<i128> = Vec::new();
    let mut i: usize = 0;
    while i < keys.len()
        invariant
            i <= keys@.len(),
            ks == opt_views(keys@),
            ranks@.len() == i,
            forall|j: int| 0 <= j < i ==> #[trigger] ranks@[j] == smaller(ks, ks[j]),
        decreases keys.len() - i,
    {
        ranks.push(count_smaller(keys, i));
        i += 1;
    }
    assert(ints(ranks@) =~= Seq::new(ks.len(), |i: int| smaller(ks, ks[i])));
    rank_descending(&ranks)
}

} // verus!
