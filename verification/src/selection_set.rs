//! The set of selections of a document and the pass that restores its
//! invariants: sorted by start, merged where selections overlap or touch,
//! never empty.

use vstd::prelude::*;

use crate::selection::Selection;

verus! {

/// The selection that stands for `a` and `b` together once they are merged:
/// it spans from the lower start to the higher end, anchor first.
pub open spec fn merged_pair(a: Selection, b: Selection) -> Selection {
    Selection {
        anchor: (if a.spec_start() <= b.spec_start() {
            a.spec_start()
        } else {
            b.spec_start()
        }) as usize,
        head: (if a.spec_end() >= b.spec_end() {
            a.spec_end()
        } else {
            b.spec_end()
        }) as usize,
    }
}

/// Selections in ascending order of start.
pub open spec fn sorted_by_start(s: Seq<Selection>) -> bool {
    forall|i: int, j: int| 0 <= i < j < s.len() ==> s[i].spec_start() <= s[j].spec_start()
}

/// Each selection ends strictly before the next one starts: the sequence is
/// in ascending order and no two selections overlap or touch.
pub open spec fn separated(s: Seq<Selection>) -> bool {
    forall|i: int, j: int| 0 <= i < j < s.len() ==> s[i].spec_end() < s[j].spec_start()
}

/// The invariant of a selection set: never empty, ascending, and with no
/// two selections that overlap or touch.
pub open spec fn is_normalized(s: Seq<Selection>) -> bool {
    s.len() > 0 && separated(s)
}

/// Every offset of every selection is at most `max`.
pub open spec fn within(s: Seq<Selection>, max: int) -> bool {
    forall|i: int| 0 <= i < s.len() ==> s[i].anchor <= max && s[i].head <= max
}

/// Where `x` goes in the sorted sequence `s`: behind the last selection
/// that starts no later than `x`.
pub open spec fn insert_position(s: Seq<Selection>, x: Selection) -> int
    decreases s.len(),
{
    if s.len() == 0 || s.last().spec_start() <= x.spec_start() {
        s.len() as int
    } else {
        insert_position(s.drop_last(), x)
    }
}

/// `s` in ascending order of start; selections with equal starts keep
/// their order.
pub open spec fn sort_by_start(s: Seq<Selection>) -> Seq<Selection>
    decreases s.len(),
{
    if s.len() == 0 {
        s
    } else {
        let sorted = sort_by_start(s.drop_last());
        sorted.insert(insert_position(sorted, s.last()), s.last())
    }
}

/// One pass over `s` that folds each selection into the one before it when
/// it starts at or before that one's end.
pub open spec fn merge_adjacent(s: Seq<Selection>) -> Seq<Selection>
    decreases s.len(),
{
    if s.len() == 0 {
        s
    } else {
        let merged = merge_adjacent(s.drop_last());
        let next = s.last();
        if merged.len() > 0 && next.spec_start() <= merged.last().spec_end() {
            merged.drop_last().push(merged_pair(merged.last(), next))
        } else {
            merged.push(next)
        }
    }
}

/// The normal form of a selection set: sorted, merged, and a single cursor
/// at offset 0 when there is no selection at all.
pub open spec fn normalized(s: Seq<Selection>) -> Seq<Selection> {
    if s.len() == 0 {
        seq![Selection { anchor: 0, head: 0 }]
    } else {
        merge_adjacent(sort_by_start(s))
    }
}

/// Each selection of `s` with both offsets limited to `max`.
pub open spec fn clamped(s: Seq<Selection>, max: int) -> Seq<Selection> {
    Seq::new(
        s.len(),
        |i: int|
            Selection {
                anchor: (if s[i].anchor <= max {
                    s[i].anchor as int
                } else {
                    max
                }) as usize,
                head: (if s[i].head <= max {
                    s[i].head as int
                } else {
                    max
                }) as usize,
            },
    )
}

/// The insert position lies within the sequence, behind every selection
/// that starts no later than `x` and before every one that starts later.
pub proof fn lemma_insert_position_bounds(s: Seq<Selection>, x: Selection)
    ensures
        0 <= insert_position(s, x) <= s.len(),
        forall|i: int|
            insert_position(s, x) <= i < s.len() ==> s[i].spec_start() > x.spec_start(),
        insert_position(s, x) > 0 ==> s[insert_position(s, x) - 1].spec_start()
            <= x.spec_start(),
    decreases s.len(),
{
    if s.len() == 0 || s.last().spec_start() <= x.spec_start() {
    } else {
        let head = s.drop_last();
        lemma_insert_position_bounds(head, x);
        assert forall|i: int| insert_position(s, x) <= i < s.len() implies s[i].spec_start()
            > x.spec_start() by {
            if i < head.len() {
                assert(head[i] == s[i]);
            }
        }
        if insert_position(s, x) > 0 {
            assert(head[insert_position(s, x) - 1] == s[insert_position(s, x) - 1]);
        }
    }
}

/// Sorting keeps the number of selections and yields ascending starts.
pub proof fn lemma_sort_by_start_sorted(s: Seq<Selection>)
    ensures
        sort_by_start(s).len() == s.len(),
        sorted_by_start(sort_by_start(s)),
    decreases s.len(),
{
    if s.len() > 0 {
        let sorted = sort_by_start(s.drop_last());
        let x = s.last();
        let pos = insert_position(sorted, x);
        lemma_sort_by_start_sorted(s.drop_last());
        lemma_insert_position_bounds(sorted, x);
        let out = sorted.insert(pos, x);
        assert forall|i: int, j: int| 0 <= i < j < out.len() implies out[i].spec_start()
            <= out[j].spec_start() by {
            if j < pos {
                assert(out[i] == sorted[i] && out[j] == sorted[j]);
            } else if j == pos {
                assert(out[i] == sorted[i]);
                if pos > 0 {
                    assert(sorted[i].spec_start() <= sorted[pos - 1].spec_start());
                }
            } else if i < pos {
                assert(out[i] == sorted[i] && out[j] == sorted[j - 1]);
            } else if i == pos {
                assert(out[j] == sorted[j - 1]);
            } else {
                assert(out[i] == sorted[i - 1] && out[j] == sorted[j - 1]);
            }
        }
    }
}

/// Sorting keeps every offset within the bound that held before.
pub proof fn lemma_sort_by_start_within(s: Seq<Selection>, max: int)
    requires
        within(s, max),
    ensures
        within(sort_by_start(s), max),
    decreases s.len(),
{
    if s.len() > 0 {
        let sorted = sort_by_start(s.drop_last());
        let x = s.last();
        let pos = insert_position(sorted, x);
        assert(within(s.drop_last(), max)) by {
            assert forall|i: int| 0 <= i < s.drop_last().len() implies s.drop_last()[i].anchor
                <= max && s.drop_last()[i].head <= max by {
                assert(s.drop_last()[i] == s[i]);
            }
        }
        lemma_sort_by_start_within(s.drop_last(), max);
        lemma_sort_by_start_sorted(s.drop_last());
        lemma_insert_position_bounds(sorted, x);
        let out = sorted.insert(pos, x);
        assert forall|i: int| 0 <= i < out.len() implies out[i].anchor <= max && out[i].head
            <= max by {
            if i < pos {
                assert(out[i] == sorted[i]);
            } else if i == pos {
                assert(out[i] == x);
            } else {
                assert(out[i] == sorted[i - 1]);
            }
        }
    }
}

/// Merging a sorted sequence leaves selections that are separated, and
/// none when and only when there were none.
pub proof fn lemma_merge_adjacent_separated(s: Seq<Selection>)
    requires
        sorted_by_start(s),
    ensures
        separated(merge_adjacent(s)),
        merge_adjacent(s).len() <= s.len(),
        s.len() > 0 ==> merge_adjacent(s).len() > 0,
        s.len() > 0 ==> merge_adjacent(s).last().spec_start() <= s.last().spec_start(),
    decreases s.len(),
{
    if s.len() > 0 {
        let head = s.drop_last();
        let merged = merge_adjacent(head);
        let next = s.last();
        assert(sorted_by_start(head)) by {
            assert forall|i: int, j: int| 0 <= i < j < head.len() implies head[i].spec_start()
                <= head[j].spec_start() by {
                assert(head[i] == s[i] && head[j] == s[j]);
            }
        }
        lemma_merge_adjacent_separated(head);
        if head.len() > 0 {
            assert(head.last() == s[s.len() - 2]);
            assert(head.last().spec_start() <= next.spec_start());
        }
        let out = merge_adjacent(s);
        if merged.len() > 0 && next.spec_start() <= merged.last().spec_end() {
            let joined = merged_pair(merged.last(), next);
            assert forall|i: int, j: int| 0 <= i < j < out.len() implies out[i].spec_end()
                < out[j].spec_start() by {
                assert(out[i] == merged[i]);
                if j < out.len() - 1 {
                    assert(out[j] == merged[j]);
                } else {
                    assert(out[j] == joined);
                    assert(merged[i].spec_end() < merged.last().spec_start());
                }
            }
        } else {
            assert forall|i: int, j: int| 0 <= i < j < out.len() implies out[i].spec_end()
                < out[j].spec_start() by {
                assert(out[i] == merged[i]);
                if j < out.len() - 1 {
                    assert(out[j] == merged[j]);
                } else {
                    assert(out[j] == next);
                    if i < merged.len() - 1 {
                        assert(merged[i].spec_end() < merged.last().spec_start());
                    }
                }
            }
        }
    }
}

/// Merging keeps every offset within the bound that held before.
pub proof fn lemma_merge_adjacent_within(s: Seq<Selection>, max: int)
    requires
        within(s, max),
    ensures
        within(merge_adjacent(s), max),
    decreases s.len(),
{
    if s.len() > 0 {
        let head = s.drop_last();
        let merged = merge_adjacent(head);
        let next = s.last();
        assert(within(head, max)) by {
            assert forall|i: int| 0 <= i < head.len() implies head[i].anchor <= max
                && head[i].head <= max by {
                assert(head[i] == s[i]);
            }
        }
        lemma_merge_adjacent_within(head, max);
        let out = merge_adjacent(s);
        assert forall|i: int| 0 <= i < out.len() implies out[i].anchor <= max && out[i].head
            <= max by {
            if i < out.len() - 1 {
                assert(out[i] == merged[i]);
            } else if merged.len() > 0 && next.spec_start() <= merged.last().spec_end() {
                assert(out[i] == merged_pair(merged.last(), next));
                assert(merged.last() == merged[merged.len() - 1]);
            } else {
                assert(out[i] == next);
            }
        }
    }
}

/// The normal form of any sequence of selections satisfies the invariant
/// of a selection set, and stays within any bound that held of the input.
pub proof fn lemma_normalized_is_normalized(s: Seq<Selection>, max: int)
    ensures
        is_normalized(normalized(s)),
        0 <= max && within(s, max) ==> within(normalized(s), max),
{
    if s.len() > 0 {
        lemma_sort_by_start_sorted(s);
        lemma_merge_adjacent_separated(sort_by_start(s));
        if 0 <= max && within(s, max) {
            lemma_sort_by_start_within(s, max);
            lemma_merge_adjacent_within(sort_by_start(s), max);
        }
    }
}

/// A sequence that already satisfies the invariant is its own normal form.
pub proof fn lemma_normalized_fixed_point(s: Seq<Selection>)
    requires
        is_normalized(s),
    ensures
        normalized(s) == s,
{
    lemma_separated_sort_merge(s);
}

proof fn lemma_separated_sort_merge(s: Seq<Selection>)
    requires
        separated(s),
    ensures
        sort_by_start(s) == s,
        merge_adjacent(s) == s,
    decreases s.len(),
{
    if s.len() > 0 {
        let head = s.drop_last();
        assert(separated(head)) by {
            assert forall|i: int, j: int| 0 <= i < j < head.len() implies head[i].spec_end()
                < head[j].spec_start() by {
                assert(head[i] == s[i] && head[j] == s[j]);
            }
        }
        lemma_separated_sort_merge(head);
        if head.len() > 0 {
            assert(head.last() == s[s.len() - 2]);
            assert(s[s.len() - 2].spec_end() < s[s.len() - 1].spec_start());
        }
        assert(head.insert(head.len() as int, s.last()) =~= s);
        assert(head.push(s.last()) =~= s);
    }
}

/// Sorts the selections by their start, keeping the order of those that
/// start at the same offset.
pub fn sort_selections(input: &Vec<Selection>) -> (out: Vec<Selection>)
    ensures
        out@ == sort_by_start(input@),
{
    let mut out: Vec<Selection> = Vec::new();
    let mut i: usize = 0;
    while i < input.len()
        invariant
            i <= input.len(),
            out@ == sort_by_start(input@.take(i as int)),
        decreases input.len() - i,
    {
        let x = input[i];
        let mut pos: usize = out.len();
        proof {
            assert(out@.take(pos as int) =~= out@);
        }
        while pos > 0 && out[pos - 1].start() > x.start()
            invariant
                pos <= out.len(),
                insert_position(out@, x) == insert_position(out@.take(pos as int), x),
            decreases pos,
        {
            proof {
                let cut = out@.take(pos as int);
                assert(cut.last() == out@[pos - 1]);
                assert(cut.drop_last() =~= out@.take(pos - 1));
            }
            pos -= 1;
        }
        proof {
            let cut = out@.take(pos as int);
            if pos > 0 {
                assert(cut.last() == out@[pos - 1]);
            }
            assert(insert_position(cut, x) == pos);
            assert(input@.take(i + 1).drop_last() =~= input@.take(i as int));
            assert(input@.take(i + 1).last() == x);
        }
        out.insert(pos, x);
        i += 1;
    }
    proof {
        assert(input@.take(input.len() as int) =~= input@);
    }
    out
}

/// Merges, in one pass, each selection into the one before it when the two
/// overlap or touch.
pub fn merge_selections(sorted: &Vec<Selection>) -> (out: Vec<Selection>)
    ensures
        out@ == merge_adjacent(sorted@),
{
    let mut out: Vec<Selection> = Vec::new();
    let mut i: usize = 0;
    while i < sorted.len()
        invariant
            i <= sorted.len(),
            out@ == merge_adjacent(sorted@.take(i as int)),
        decreases sorted.len() - i,
    {
        let next = sorted[i];
        proof {
            assert(sorted@.take(i + 1).drop_last() =~= sorted@.take(i as int));
            assert(sorted@.take(i + 1).last() == next);
        }
        let n = out.len();
        if n > 0 && next.start() <= out[n - 1].end() {
            let last = out[n - 1];
            let start = if last.start() <= next.start() {
                last.start()
            } else {
                next.start()
            };
            let end = if last.end() >= next.end() {
                last.end()
            } else {
                next.end()
            };
            let ghost before = out@;
            out.set(n - 1, Selection::new(start, end));
            proof {
                assert(out@ =~= before.drop_last().push(merged_pair(before.last(), next)));
            }
        } else {
            out.push(next);
        }
        i += 1;
    }
    proof {
        assert(sorted@.take(sorted.len() as int) =~= sorted@);
    }
    out
}

/// Restores the invariant of a selection set: sorts the selections, merges
/// those that overlap or touch, and puts a cursor at offset 0 into a set
/// that holds nothing.
pub fn normalize(selections: &mut Vec<Selection>)
    ensures
        final(selections)@ == normalized(old(selections)@),
        is_normalized(final(selections)@),
        forall|max: int|
            0 <= max && within(old(selections)@, max) ==> #[trigger] within(
                final(selections)@,
                max,
            ),
{
    proof {
        assert forall|max: int| 0 <= max && within(selections@, max) implies #[trigger] within(
            normalized(selections@),
            max,
        ) by {
            lemma_normalized_is_normalized(selections@, max);
        }
        lemma_normalized_is_normalized(selections@, 0);
    }
    if selections.len() == 0 {
        selections.push(Selection::cursor(0));
        proof {
            assert(selections@ =~= seq![Selection { anchor: 0, head: 0 }]);
        }
    } else {
        let sorted = sort_selections(selections);
        let merged = merge_selections(&sorted);
        *selections = merged;
    }
}

/// Limits every offset of every selection to `max`.
pub fn clamp_selections(selections: &mut Vec<Selection>, max: usize)
    ensures
        final(selections)@ == clamped(old(selections)@, max as int),
        within(final(selections)@, max as int),
{
    let mut i: usize = 0;
    while i < selections.len()
        invariant
            i <= selections.len(),
            selections.len() == old(selections).len(),
            forall|k: int| 0 <= k < i ==> selections@[k] == clamped(old(selections)@, max as int)[k],
            forall|k: int| i <= k < selections.len() ==> selections@[k] == old(selections)@[k],
        decreases selections.len() - i,
    {
        let sel = selections[i];
        let anchor = if sel.anchor <= max {
            sel.anchor
        } else {
            max
        };
        let head = if sel.head <= max {
            sel.head
        } else {
            max
        };
        selections.set(i, Selection::new(anchor, head));
        i += 1;
    }
    proof {
        assert(selections@ =~= clamped(old(selections)@, max as int));
    }
}

} // verus!
