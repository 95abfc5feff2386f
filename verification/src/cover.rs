//! What a set of selections covers, and the merge law: the normal form of
//! a set is the one minimal cover of its ranges by selections that neither
//! overlap nor touch, so the order of the input does not matter.

use vstd::prelude::*;
use vstd::seq_lib::{to_multiset_insert, to_multiset_len};

use crate::selection::Selection;
use crate::selection_set::{
    insert_position, lemma_insert_position_bounds, lemma_merge_adjacent_separated,
    lemma_normalized_is_normalized, lemma_sort_by_start_sorted, merge_adjacent, merged_pair,
    normalized, separated, sort_by_start, sorted_by_start,
};

verus! {

/// True when the offset `p` lies within `sel`, ends included.
pub open spec fn holds(sel: Selection, p: int) -> bool {
    sel.spec_start() <= p <= sel.spec_end()
}

/// True when the step from offset `p` to `p + 1` lies within `sel`.
pub open spec fn spans(sel: Selection, p: int) -> bool {
    sel.spec_start() <= p && p + 1 <= sel.spec_end()
}

/// True when some selection of `s` holds the offset `p`.
pub open spec fn covers(s: Seq<Selection>, p: int) -> bool {
    exists|i: int| 0 <= i < s.len() && holds(#[trigger] s[i], p)
}

/// True when some selection of `s` spans the step from `p` to `p + 1`.
pub open spec fn joins(s: Seq<Selection>, p: int) -> bool {
    exists|i: int| 0 <= i < s.len() && spans(#[trigger] s[i], p)
}

/// True when `a` and `b` cover the same offsets and the same steps.
pub open spec fn same_cover(a: Seq<Selection>, b: Seq<Selection>) -> bool {
    &&& forall|p: int| #[trigger] covers(a, p) == covers(b, p)
    &&& forall|p: int| #[trigger] joins(a, p) == joins(b, p)
}

/// True when `a` and `b` hold the same ranges in the same order, whatever
/// the direction of each selection.
pub open spec fn same_ranges(a: Seq<Selection>, b: Seq<Selection>) -> bool {
    &&& a.len() == b.len()
    &&& forall|i: int|
        0 <= i < a.len() ==> (#[trigger] a[i]).spec_start() == b[i].spec_start() && a[i].spec_end()
            == b[i].spec_end()
}

proof fn lemma_cover_insert(s: Seq<Selection>, pos: int, x: Selection, p: int)
    requires
        0 <= pos <= s.len(),
    ensures
        covers(s.insert(pos, x), p) == (covers(s, p) || holds(x, p)),
        joins(s.insert(pos, x), p) == (joins(s, p) || spans(x, p)),
{
    let t = s.insert(pos, x);
    assert(t[pos] == x);
    if covers(s, p) {
        let i = choose|i: int| 0 <= i < s.len() && holds(#[trigger] s[i], p);
        if i < pos {
            assert(t[i] == s[i]);
        } else {
            assert(t[i + 1] == s[i]);
        }
    }
    if covers(t, p) {
        let i = choose|i: int| 0 <= i < t.len() && holds(#[trigger] t[i], p);
        if i < pos {
            assert(t[i] == s[i]);
        } else if i > pos {
            assert(t[i] == s[i - 1]);
        }
    }
    if joins(s, p) {
        let i = choose|i: int| 0 <= i < s.len() && spans(#[trigger] s[i], p);
        if i < pos {
            assert(t[i] == s[i]);
        } else {
            assert(t[i + 1] == s[i]);
        }
    }
    if joins(t, p) {
        let i = choose|i: int| 0 <= i < t.len() && spans(#[trigger] t[i], p);
        if i < pos {
            assert(t[i] == s[i]);
        } else if i > pos {
            assert(t[i] == s[i - 1]);
        }
    }
}

proof fn lemma_cover_push(s: Seq<Selection>, x: Selection, p: int)
    ensures
        covers(s.push(x), p) == (covers(s, p) || holds(x, p)),
        joins(s.push(x), p) == (joins(s, p) || spans(x, p)),
{
    assert(s.push(x) =~= s.insert(s.len() as int, x));
    lemma_cover_insert(s, s.len() as int, x, p);
}

proof fn lemma_cover_last(s: Seq<Selection>, p: int)
    requires
        s.len() > 0,
    ensures
        covers(s, p) == (covers(s.drop_last(), p) || holds(s.last(), p)),
        joins(s, p) == (joins(s.drop_last(), p) || spans(s.last(), p)),
{
    assert(s.drop_last().push(s.last()) =~= s);
    lemma_cover_push(s.drop_last(), s.last(), p);
}

/// Sorting rearranges the selections and loses none.
pub proof fn lemma_sort_is_permutation(s: Seq<Selection>)
    ensures
        sort_by_start(s).to_multiset() == s.to_multiset(),
    decreases s.len(),
{
    if s.len() > 0 {
        let head = s.drop_last();
        let sorted = sort_by_start(head);
        lemma_sort_is_permutation(head);
        lemma_sort_by_start_sorted(head);
        lemma_insert_position_bounds(sorted, s.last());
        to_multiset_insert(sorted, insert_position(sorted, s.last()), s.last());
        assert(head.push(s.last()) =~= s);
        to_multiset_insert(head, head.len() as int, s.last());
        assert(head.insert(head.len() as int, s.last()) =~= s);
    }
}

/// Sorting changes nothing of what a set covers.
pub proof fn lemma_sort_keeps_cover(s: Seq<Selection>)
    ensures
        same_cover(sort_by_start(s), s),
    decreases s.len(),
{
    if s.len() > 0 {
        let head = s.drop_last();
        let sorted = sort_by_start(head);
        let pos = insert_position(sorted, s.last());
        lemma_sort_keeps_cover(head);
        lemma_sort_by_start_sorted(head);
        lemma_insert_position_bounds(sorted, s.last());
        assert forall|p: int| #[trigger] covers(sort_by_start(s), p) == covers(s, p) by {
            lemma_cover_insert(sorted, pos, s.last(), p);
            lemma_cover_last(s, p);
            assert(covers(sorted, p) == covers(head, p));
        }
        assert forall|p: int| #[trigger] joins(sort_by_start(s), p) == joins(s, p) by {
            lemma_cover_insert(sorted, pos, s.last(), p);
            lemma_cover_last(s, p);
            assert(joins(sorted, p) == joins(head, p));
        }
    }
}

/// Merging a sorted set changes nothing of what it covers.
pub proof fn lemma_merge_keeps_cover(s: Seq<Selection>)
    requires
        sorted_by_start(s),
    ensures
        same_cover(merge_adjacent(s), s),
    decreases s.len(),
{
    if s.len() > 0 {
        let head = s.drop_last();
        let merged = merge_adjacent(head);
        let next = s.last();
        assert(sorted_by_start(head)) by {
            assert forall|i: int, j: int| 0 <= i < j < head.len() implies head[i].spec_start()
                <= head[j].spec_start() by {
                assert(head[i] == s[i] && head[j] == s[j]);
            }
        }
        lemma_merge_keeps_cover(head);
        lemma_merge_adjacent_separated(head);
        if head.len() > 0 {
            assert(head.last() == s[s.len() - 2]);
        }
        let out = merge_adjacent(s);
        if merged.len() > 0 && next.spec_start() <= merged.last().spec_end() {
            let last = merged.last();
            let joined = merged_pair(last, next);
            assert(last.spec_start() <= next.spec_start());
            assert forall|p: int| #[trigger] covers(out, p) == covers(s, p) by {
                lemma_cover_push(merged.drop_last(), joined, p);
                lemma_cover_last(merged, p);
                lemma_cover_last(s, p);
                assert(covers(merged, p) == covers(head, p));
                assert(holds(joined, p) == (holds(last, p) || holds(next, p)));
            }
            assert forall|p: int| #[trigger] joins(out, p) == joins(s, p) by {
                lemma_cover_push(merged.drop_last(), joined, p);
                lemma_cover_last(merged, p);
                lemma_cover_last(s, p);
                assert(joins(merged, p) == joins(head, p));
                assert(spans(joined, p) == (spans(last, p) || spans(next, p)));
            }
        } else {
            assert forall|p: int| #[trigger] covers(out, p) == covers(s, p) by {
                lemma_cover_push(merged, next, p);
                lemma_cover_last(s, p);
                assert(covers(merged, p) == covers(head, p));
            }
            assert forall|p: int| #[trigger] joins(out, p) == joins(s, p) by {
                lemma_cover_push(merged, next, p);
                lemma_cover_last(s, p);
                assert(joins(merged, p) == joins(head, p));
            }
        }
    }
}

/// The normal form of a set that is not empty covers exactly the offsets
/// and the steps that the set covers.
pub proof fn lemma_normalized_keeps_cover(s: Seq<Selection>)
    requires
        s.len() > 0,
    ensures
        same_cover(normalized(s), s),
{
    let sorted = sort_by_start(s);
    lemma_sort_by_start_sorted(s);
    lemma_sort_keeps_cover(s);
    lemma_merge_keeps_cover(sorted);
    assert forall|p: int| #[trigger] covers(normalized(s), p) == covers(s, p) by {
        assert(covers(sorted, p) == covers(s, p));
    }
    assert forall|p: int| #[trigger] joins(normalized(s), p) == joins(s, p) by {
        assert(joins(sorted, p) == joins(s, p));
    }
}

proof fn lemma_first_start(a: Seq<Selection>, b: Seq<Selection>)
    requires
        separated(a),
        separated(b),
        same_cover(a, b),
        a.len() > 0,
    ensures
        b.len() > 0,
        b[0].spec_start() <= a[0].spec_start(),
{
    let p = a[0].spec_start();
    assert(holds(a[0], p));
    assert(covers(a, p));
    assert(covers(b, p));
    let j = choose|j: int| 0 <= j < b.len() && holds(#[trigger] b[j], p);
    if j > 0 {
        assert(b[0].spec_end() < b[j].spec_start());
    }
}

proof fn lemma_first_end(a: Seq<Selection>, b: Seq<Selection>)
    requires
        separated(a),
        separated(b),
        same_cover(a, b),
        a.len() > 0,
        b.len() > 0,
        a[0].spec_start() == b[0].spec_start(),
    ensures
        b[0].spec_end() <= a[0].spec_end(),
{
    let e = a[0].spec_end();
    if e < b[0].spec_end() {
        assert(spans(b[0], e));
        assert(joins(b, e));
        assert(joins(a, e));
        let i = choose|i: int| 0 <= i < a.len() && spans(#[trigger] a[i], e);
        if i > 0 {
            assert(a[0].spec_end() < a[i].spec_start());
        }
    }
}

proof fn lemma_rest_cover(a: Seq<Selection>, p: int)
    requires
        separated(a),
        a.len() > 0,
    ensures
        separated(a.drop_first()),
        covers(a.drop_first(), p) == (covers(a, p) && p > a[0].spec_end()),
        joins(a.drop_first(), p) == (joins(a, p) && p >= a[0].spec_end()),
{
    let rest = a.drop_first();
    assert forall|i: int, j: int| 0 <= i < j < rest.len() implies rest[i].spec_end()
        < rest[j].spec_start() by {
        assert(rest[i] == a[i + 1] && rest[j] == a[j + 1]);
    }
    if covers(rest, p) {
        let i = choose|i: int| 0 <= i < rest.len() && holds(#[trigger] rest[i], p);
        assert(rest[i] == a[i + 1]);
        assert(a[0].spec_end() < a[i + 1].spec_start());
        assert(holds(a[i + 1], p));
    }
    if covers(a, p) && p > a[0].spec_end() {
        let i = choose|i: int| 0 <= i < a.len() && holds(#[trigger] a[i], p);
        assert(i > 0);
        assert(rest[i - 1] == a[i]);
        assert(holds(rest[i - 1], p));
    }
    if joins(rest, p) {
        let i = choose|i: int| 0 <= i < rest.len() && spans(#[trigger] rest[i], p);
        assert(rest[i] == a[i + 1]);
        assert(a[0].spec_end() < a[i + 1].spec_start());
        assert(spans(a[i + 1], p));
    }
    if joins(a, p) && p >= a[0].spec_end() {
        let i = choose|i: int| 0 <= i < a.len() && spans(#[trigger] a[i], p);
        assert(i > 0);
        assert(rest[i - 1] == a[i]);
        assert(spans(rest[i - 1], p));
    }
}

/// Two sets of selections that neither overlap nor touch, and that cover
/// the same offsets and steps, hold the same ranges: a cover of this kind
/// is unique.
pub proof fn lemma_separated_cover_unique(a: Seq<Selection>, b: Seq<Selection>)
    requires
        separated(a),
        separated(b),
        same_cover(a, b),
    ensures
        same_ranges(a, b),
    decreases a.len(),
{
    if a.len() == 0 {
        if b.len() > 0 {
            assert(holds(b[0], b[0].spec_start()));
            assert(covers(b, b[0].spec_start()));
            assert(covers(a, b[0].spec_start()));
        }
    } else {
        lemma_first_start(a, b);
        lemma_first_start(b, a);
        lemma_first_end(a, b);
        lemma_first_end(b, a);
        let ra = a.drop_first();
        let rb = b.drop_first();
        assert forall|p: int| #[trigger] covers(ra, p) == covers(rb, p) by {
            lemma_rest_cover(a, p);
            lemma_rest_cover(b, p);
            assert(covers(a, p) == covers(b, p));
        }
        assert forall|p: int| #[trigger] joins(ra, p) == joins(rb, p) by {
            lemma_rest_cover(a, p);
            lemma_rest_cover(b, p);
            assert(joins(a, p) == joins(b, p));
        }
        lemma_rest_cover(a, 0);
        lemma_rest_cover(b, 0);
        lemma_separated_cover_unique(ra, rb);
        assert forall|i: int| 0 <= i < a.len() implies (#[trigger] a[i]).spec_start()
            == b[i].spec_start() && a[i].spec_end() == b[i].spec_end() by {
            if i > 0 {
                assert(ra[i - 1] == a[i] && rb[i - 1] == b[i]);
            }
        }
    }
}

/// The normal form of a set is its only cover of this kind: whatever
/// selections neither overlap nor touch and cover the same offsets and the
/// same steps as the set are as many as those of the normal form and hold
/// the same ranges. A step that no selection of the set spans keeps two
/// selections apart, however close they lie.
pub proof fn lemma_normalized_is_the_cover(s: Seq<Selection>, other: Seq<Selection>)
    requires
        s.len() > 0,
        separated(other),
        same_cover(other, s),
    ensures
        same_ranges(other, normalized(s)),
{
    lemma_normalized_keeps_cover(s);
    lemma_normalized_is_normalized(s, 0);
    let n = normalized(s);
    assert forall|p: int| #[trigger] covers(other, p) == covers(n, p) by {
        assert(covers(s, p) == covers(n, p));
    }
    assert forall|p: int| #[trigger] joins(other, p) == joins(n, p) by {
        assert(joins(s, p) == joins(n, p));
    }
    lemma_separated_cover_unique(other, n);
}

proof fn lemma_shared_member(s: Seq<Selection>, t: Seq<Selection>, x: Selection)
    requires
        s.to_multiset() == t.to_multiset(),
        s.contains(x),
    ensures
        t.contains(x),
{
    s.to_multiset_ensures();
    t.to_multiset_ensures();
    assert(s.to_multiset().count(x) > 0);
    assert(t.to_multiset().count(x) > 0);
}

/// The merge law: two sets that hold the same selections, in whatever
/// order, have normal forms with the same ranges.
pub proof fn lemma_normalized_ignores_order(s: Seq<Selection>, t: Seq<Selection>)
    requires
        s.to_multiset() == t.to_multiset(),
    ensures
        same_ranges(normalized(s), normalized(t)),
{
    to_multiset_len(s);
    to_multiset_len(t);
    if s.len() > 0 {
        assert forall|p: int| #[trigger] covers(s, p) == covers(t, p) by {
            if covers(s, p) {
                let i = choose|i: int| 0 <= i < s.len() && holds(#[trigger] s[i], p);
                lemma_shared_member(s, t, s[i]);
                let j = choose|j: int| 0 <= j < t.len() && t[j] == s[i];
                assert(holds(t[j], p));
            }
            if covers(t, p) {
                let i = choose|i: int| 0 <= i < t.len() && holds(#[trigger] t[i], p);
                lemma_shared_member(t, s, t[i]);
                let j = choose|j: int| 0 <= j < s.len() && s[j] == t[i];
                assert(holds(s[j], p));
            }
        }
        assert forall|p: int| #[trigger] joins(s, p) == joins(t, p) by {
            if joins(s, p) {
                let i = choose|i: int| 0 <= i < s.len() && spans(#[trigger] s[i], p);
                lemma_shared_member(s, t, s[i]);
                let j = choose|j: int| 0 <= j < t.len() && t[j] == s[i];
                assert(spans(t[j], p));
            }
            if joins(t, p) {
                let i = choose|i: int| 0 <= i < t.len() && spans(#[trigger] t[i], p);
                lemma_shared_member(t, s, t[i]);
                let j = choose|j: int| 0 <= j < s.len() && s[j] == t[i];
                assert(spans(s[j], p));
            }
        }
        lemma_normalized_keeps_cover(s);
        lemma_normalized_keeps_cover(t);
        let ns = normalized(s);
        let nt = normalized(t);
        assert forall|p: int| #[trigger] covers(ns, p) == covers(nt, p) by {
            assert(covers(s, p) == covers(t, p));
        }
        assert forall|p: int| #[trigger] joins(ns, p) == joins(nt, p) by {
            assert(joins(s, p) == joins(t, p));
        }
        lemma_normalized_is_normalized(s, 0);
        lemma_normalized_is_normalized(t, 0);
        lemma_separated_cover_unique(ns, nt);
    }
}

} // verus!
