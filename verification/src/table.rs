//! Rows that stay and rows that go.

use vstd::prelude::*;

use crate::models::rows;
use crate::order::positions;

verus! {

/// The rows that meet the condition, in order.
pub open spec fn kept<T>(s: Seq<T>, stays: spec_fn(T) -> bool) -> Seq<T>
    decreases s.len(),
{
    if s.len() == 0 {
        seq![]
    } else if stays(s.last()) {
        kept(s.drop_last(), stays).push(s.last())
    } else {
        kept(s.drop_last(), stays)
    }
}

/// What stays is what was there and meets the condition.
pub proof fn lemma_kept<T>(s: Seq<T>, stays: spec_fn(T) -> bool, x: T)
    ensures
        kept(s, stays).contains(x) <==> s.contains(x) && stays(x),
        kept(s, stays).len() <= s.len(),
    decreases s.len(),
{
    if s.len() > 0 {
        let most = s.drop_last();
        lemma_kept(most, stays, x);
        assert(s =~= most.push(s.last()));
        crate::matcher::lemma_push_contains(most, s.last(), x);
        crate::matcher::lemma_push_contains(kept(most, stays), s.last(), x);
    }
}

/// The marks are those of the condition.
pub open spec fn marks_agree<T>(s: Seq<T>, marks: Seq<bool>, stays: spec_fn(T) -> bool) -> bool {
    marks.len() == s.len() && forall|i: int| 0 <= i < s.len() ==> #[trigger] marks[i] == stays(s[i])
}

/// Removes the rows that are not marked.
pub(crate) fn keep_marked<T: View>(
    v: &mut Vec<T>,
    marks: &Vec<bool>,
    stays: Ghost<spec_fn(T::V) -> bool>,
)
    requires
        marks_agree(rows(old(v)@), marks@, stays@),
    ensures
        rows(final(v)@) == kept(rows(old(v)@), stays@),
{
    let ghost all = rows(v@);
    let mut i: usize = 0;
    let mut j: usize = 0;
    assert(all.take(0) =~= seq![]);
    assert(rows(v@).take(0) =~= seq![]);
    assert(rows(v@).skip(0) =~= all.skip(0));
    while j < marks.len()
        invariant
            i <= j <= marks@.len(),
            marks@.len() == all.len(),
            v@.len() == i + (all.len() - j),
            marks_agree(all, marks@, stays@),
            rows(v@).take(i as int) == kept(all.take(j as int), stays@),
            rows(v@).skip(i as int) == all.skip(j as int),
        decreases marks.len() - j,
    {
        let ghost cur = rows(v@);
        assert(all.take(j + 1).drop_last() =~= all.take(j as int));
        assert(all.take(j + 1).last() == all[j as int]);
        assert(cur[i as int] == cur.skip(i as int)[0]);
        assert(all.skip(j as int)[0] == all[j as int]);
        if marks[j] {
            i += 1;
            assert(rows(v@).take(i as int) =~= cur.take(i - 1).push(all[j as int]));
            assert(rows(v@).skip(i as int) =~= cur.skip(i - 1).drop_first());
            assert(all.skip(j + 1) =~= all.skip(j as int).drop_first());
        } else {
            v.remove(i);
            assert(rows(v@).take(i as int) =~= cur.take(i as int));
            assert(rows(v@).skip(i as int) =~= cur.skip(i as int).drop_first());
            assert(all.skip(j + 1) =~= all.skip(j as int).drop_first());
        }
        j += 1;
    }
    assert(all.take(j as int) =~= all);
    assert(rows(v@).take(i as int) =~= rows(v@));
}

/// The positions below `n` that meet the condition, in order.
pub open spec fn places(n: int, fits: spec_fn(int) -> bool) -> Seq<int>
    decreases n,
{
    if n <= 0 {
        seq![]
    } else if fits(n - 1) {
        places(n - 1, fits).push(n - 1)
    } else {
        places(n - 1, fits)
    }
}

/// Positions of a list in another order.
pub open spec fn arranged(at: Seq<int>, order: Seq<int>) -> Seq<int> {
    Seq::new(order.len(), |i: int| at[order[i]])
}

/// What lies at the positions is what meets the condition, each once, in order.
pub proof fn lemma_places(n: int, fits: spec_fn(int) -> bool)
    ensures
        forall|k: int|
            0 <= k < places(n, fits).len() ==> 0 <= #[trigger] places(n, fits)[k] < n && fits(
                places(n, fits)[k],
            ),
        forall|i: int| 0 <= i < n && #[trigger] fits(i) ==> places(n, fits).contains(i),
        forall|k: int, l: int|
            0 <= k < l < places(n, fits).len() ==> #[trigger] places(n, fits)[k]
                < #[trigger] places(n, fits)[l],
        places(n, fits).len() <= if n > 0 {
            n
        } else {
            0
        },
    decreases n,
{
    if n > 0 {
        lemma_places(n - 1, fits);
        let less = places(n - 1, fits);
        assert forall|i: int| 0 <= i < n && #[trigger] fits(i) implies places(n, fits).contains(
            i,
        ) by {
            if i < n - 1 {
                let k = choose|k: int| 0 <= k < less.len() && less[k] == i;
                assert(places(n, fits)[k] == i);
            } else {
                assert(places(n, fits)[less.len() as int] == i);
            }
        }
    }
}

/// Conditions that agree below `n` have the same positions.
pub proof fn lemma_places_agree(n: int, p: spec_fn(int) -> bool, q: spec_fn(int) -> bool)
    requires
        forall|i: int| 0 <= i < n ==> #[trigger] p(i) == q(i),
    ensures
        places(n, p) == places(n, q),
    decreases n,
{
    if n > 0 {
        assert(p(n - 1) == q(n - 1));
        lemma_places_agree(n - 1, p, q);
    }
}

/// The positions that are marked.
pub(crate) fn marked_places(marks: &Vec<bool>, fits: Ghost<spec_fn(int) -> bool>) -> (r: Vec<usize>)
    requires
        forall|i: int| 0 <= i < marks@.len() ==> #[trigger] marks@[i] == fits@(i),
    ensures
        positions(r@) == places(marks@.len() as int, fits@),
        forall|k: int| 0 <= k < r@.len() ==> #[trigger] r@[k] < marks@.len(),
        forall|k: int| 0 <= k < r@.len() ==> fits@(#[trigger] r@[k] as int),
{
    let mut out: Vec<usize> = Vec::new();
    let mut i: usize = 0;
    assert(positions(out@) =~= seq![]);
    while i < marks.len()
        invariant
            i <= marks@.len(),
            forall|j: int| 0 <= j < marks@.len() ==> #[trigger] marks@[j] == fits@(j),
            positions(out@) == places(i as int, fits@),
            forall|k: int| 0 <= k < out@.len() ==> #[trigger] out@[k] < i,
            forall|k: int| 0 <= k < out@.len() ==> fits@(#[trigger] out@[k] as int),
        decreases marks.len() - i,
    {
        let ghost done = positions(out@);
        if marks[i] {
            out.push(i);
            assert(positions(out@) =~= done.push(i as int));
        }
        i += 1;
    }
    out
}

/// Positions in another order.
pub(crate) fn arrange(at: &Vec<usize>, order: &Vec<usize>) -> (r: Vec<usize>)
    requires
        forall|k: int| 0 <= k < order@.len() ==> #[trigger] order@[k] < at@.len(),
    ensures
        positions(r@) == arranged(positions(at@), positions(order@)),
        r@.len() == order@.len(),
        forall|k: int| 0 <= k < r@.len() ==> at@.contains(#[trigger] r@[k]),
{
    let mut out: Vec<usize> = Vec::new();
    let mut i: usize = 0;
    while i < order.len()
        invariant
            i <= order@.len(),
            forall|k: int| 0 <= k < order@.len() ==> #[trigger] order@[k] < at@.len(),
            out@.len() == i,
            forall|k: int| 0 <= k < i ==> #[trigger] out@[k] == at@[order@[k] as int],
        decreases order.len() - i,
    {
        out.push(at[order[i]]);
        i += 1;
    }
    assert(positions(out@) =~= arranged(positions(at@), positions(order@)));
    out
}

} // verus!
