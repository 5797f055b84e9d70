//! Bringing the workers' lists together: pool them, order the pool by
//! candidate, keep the leading entries.

use crate::ascending::strictly_ascending;
use vstd::prelude::*;

verus! {

/// The candidates of a list of entries, in the list's order.
pub open spec fn candidates(entries: Seq<(u64, String)>) -> Seq<nat> {
    Seq::new(entries.len(), |i: int| entries[i].0 as nat)
}

/// The lists one after another, the first list first.
pub open spec fn pooled(lanes: Seq<Vec<(u64, String)>>) -> Seq<(u64, String)>
    decreases lanes.len(),
{
    if lanes.len() == 0 {
        Seq::empty()
    } else {
        pooled(lanes.drop_last()) + lanes.last()@
    }
}

/// Where an entry with candidate `key` goes into `entries`: behind the last
/// entry whose candidate is not greater.
pub open spec fn insertion_point(entries: Seq<(u64, String)>, key: u64) -> int
    decreases entries.len(),
{
    if entries.len() == 0 {
        0
    } else if entries.last().0 <= key {
        entries.len() as int
    } else {
        insertion_point(entries.drop_last(), key)
    }
}

/// The entries ordered by candidate, ascending; entries with the same
/// candidate keep the order they came in.
pub open spec fn sorted_by_candidate(entries: Seq<(u64, String)>) -> Seq<(u64, String)>
    decreases entries.len(),
{
    if entries.len() == 0 {
        Seq::empty()
    } else {
        let head = sorted_by_candidate(entries.drop_last());
        head.insert(insertion_point(head, entries.last().0), entries.last())
    }
}

/// The first `n` entries, or all of them where there are fewer.
pub open spec fn leading(entries: Seq<(u64, String)>, n: nat) -> Seq<(u64, String)> {
    if n <= entries.len() {
        entries.take(n as int)
    } else {
        entries
    }
}

/// No candidate is greater than one behind it.
pub open spec fn ordered(entries: Seq<(u64, String)>) -> bool {
    forall|i: int, j: int| 0 <= i < j < entries.len() ==> entries[i].0 <= entries[j].0
}

/// No candidate occurs in two entries.
pub open spec fn distinct_candidates(entries: Seq<(u64, String)>) -> bool {
    forall|i: int, j: int| 0 <= i < j < entries.len() ==> entries[i].0 != entries[j].0
}

/// The insertion point parts the entries: behind it every candidate is
/// greater than `key`, and the entry just before it is not.
pub proof fn lemma_insertion_point(entries: Seq<(u64, String)>, key: u64)
    ensures
        0 <= insertion_point(entries, key) <= entries.len(),
        forall|i: int| insertion_point(entries, key) <= i < entries.len() ==> entries[i].0 > key,
        insertion_point(entries, key) > 0 ==> entries[insertion_point(entries, key) - 1].0 <= key,
    decreases entries.len(),
{
    if entries.len() > 0 && entries.last().0 > key {
        let rest = entries.drop_last();
        lemma_insertion_point(rest, key);
        let at = insertion_point(entries, key);
        assert forall|i: int| at <= i < entries.len() implies entries[i].0 > key by {
            if i < rest.len() {
                assert(rest[i].0 > key);
            }
        }
    }
}

/// Ordering by candidate keeps every entry, puts the candidates in
/// ascending order, and in strictly ascending order where no candidate
/// occurs twice.
pub proof fn lemma_sorted_by_candidate(entries: Seq<(u64, String)>)
    ensures
        sorted_by_candidate(entries).len() == entries.len(),
        ordered(sorted_by_candidate(entries)),
        forall|e: (u64, String)| #[trigger]
            sorted_by_candidate(entries).contains(e) <==> entries.contains(e),
        distinct_candidates(entries) ==> strictly_ascending(
            candidates(sorted_by_candidate(entries)),
        ),
    decreases entries.len(),
{
    let sorted = sorted_by_candidate(entries);
    if entries.len() > 0 {
        let rest = entries.drop_last();
        let last = entries.last();
        let head = sorted_by_candidate(rest);
        let at = insertion_point(head, last.0);
        lemma_sorted_by_candidate(rest);
        lemma_insertion_point(head, last.0);
        head.insert_ensures(at, last);
        assert forall|i: int, j: int| 0 <= i < j < sorted.len() implies sorted[i].0
            <= sorted[j].0 by {
            lemma_inserted_entry(head, at, last, i);
            lemma_inserted_entry(head, at, last, j);
            if at > 0 && i < at {
                assert(head[i].0 <= head[at - 1].0);
            }
        }
        assert forall|e: (u64, String)| #[trigger] sorted.contains(e) <==> entries.contains(e) by {
            if sorted.contains(e) {
                let i = choose|i: int| 0 <= i < sorted.len() && sorted[i] == e;
                lemma_inserted_entry(head, at, last, i);
                if i == at {
                    assert(entries[entries.len() - 1] == e);
                } else {
                    assert(head.contains(e));
                    assert(rest.contains(e));
                    let k = choose|k: int| 0 <= k < rest.len() && rest[k] == e;
                    assert(entries[k] == e);
                }
            }
            if entries.contains(e) {
                let k = choose|k: int| 0 <= k < entries.len() && entries[k] == e;
                if k == entries.len() - 1 {
                    assert(sorted[at] == e);
                } else {
                    assert(rest[k] == e);
                    assert(rest.contains(e));
                    assert(head.contains(e));
                    let i = choose|i: int| 0 <= i < head.len() && head[i] == e;
                    if i < at {
                        assert(sorted[i] == e);
                    } else {
                        assert(sorted[i + 1] == e);
                    }
                }
            }
        }
        if distinct_candidates(entries) {
            assert(distinct_candidates(rest));
            let keys = candidates(sorted);
            assert forall|i: int| 0 <= i < head.len() implies head[i].0 != last.0 by {
                assert(head.contains(head[i]));
                assert(rest.contains(head[i]));
                let k = choose|k: int| 0 <= k < rest.len() && rest[k] == head[i];
                assert(entries[k].0 != entries[entries.len() - 1].0);
            }
            assert forall|i: int, j: int| 0 <= i < j < keys.len() implies keys[i] < keys[j] by {
                lemma_inserted_entry(head, at, last, i);
                lemma_inserted_entry(head, at, last, j);
                if at > 0 && i < at {
                    assert(head[i].0 <= head[at - 1].0);
                }
                if i < at && j > at {
                    assert(candidates(head)[i] < candidates(head)[j - 1]);
                }
                if i < at && j < at {
                    assert(candidates(head)[i] < candidates(head)[j]);
                }
                if i > at {
                    assert(candidates(head)[i - 1] < candidates(head)[j - 1]);
                }
            }
        }
    }
}

/// What stands at position `i` after an insertion at `at`.
proof fn lemma_inserted_entry(
    head: Seq<(u64, String)>,
    at: int,
    entry: (u64, String),
    i: int,
)
    requires
        0 <= at <= head.len(),
        0 <= i <= head.len(),
    ensures
        i < at ==> head.insert(at, entry)[i] == head[i],
        i == at ==> head.insert(at, entry)[i] == entry,
        i > at ==> head.insert(at, entry)[i] == head[i - 1],
{
    head.insert_ensures(at, entry);
}

/// Concatenates the lists.
pub fn pool(lanes: Vec<Vec<(u64, String)>>) -> (out: Vec<(u64, String)>)
    ensures
        out@ == pooled(lanes@),
{
    let mut out: Vec<(u64, String)> = Vec::new();
    for lane in it: lanes
        invariant
            it.seq() == lanes@,
            out@ == pooled(lanes@.take(it.index() as int)),
    {
        proof {
            let done = lanes@.take(it.index() + 1);
            assert(done.drop_last() =~= lanes@.take(it.index() as int));
            assert(done.last() == lane);
        }
        let mut lane = lane;
        out.append(&mut lane);
    }
    assert(lanes@.take(lanes@.len() as int) =~= lanes@);
    out
}

/// Finds where an entry with candidate `key` goes into `entries`.
pub fn find_insertion_point(entries: &Vec<(u64, String)>, key: u64) -> (at: usize)
    ensures
        at == insertion_point(entries@, key),
        at <= entries@.len(),
{
    let mut at = entries.len();
    assert(entries@.take(at as int) =~= entries@);
    while at > 0 && entries[at - 1].0 > key
        invariant
            at <= entries@.len(),
            insertion_point(entries@, key) == insertion_point(entries@.take(at as int), key),
        decreases at,
    {
        assert(entries@.take(at as int).drop_last() =~= entries@.take(at - 1));
        at -= 1;
    }
    at
}

/// Orders the entries by candidate, ascending.
pub fn sort_by_candidate(entries: Vec<(u64, String)>) -> (out: Vec<(u64, String)>)
    ensures
        out@ == sorted_by_candidate(entries@),
        out@.len() == entries@.len(),
        ordered(out@),
{
    let mut out: Vec<(u64, String)> = Vec::new();
    for entry in it: entries
        invariant
            it.seq() == entries@,
            out@ == sorted_by_candidate(entries@.take(it.index() as int)),
    {
        proof {
            let done = entries@.take(it.index() + 1);
            assert(done.drop_last() =~= entries@.take(it.index() as int));
            assert(done.last() == entry);
        }
        let at = find_insertion_point(&out, entry.0);
        out.insert(at, entry);
    }
    proof {
        assert(entries@.take(entries@.len() as int) =~= entries@);
        lemma_sorted_by_candidate(entries@);
    }
    out
}

/// What the workers found, as one list: pooled, ordered by candidate and cut
/// to the first `count` entries.
pub fn aggregate(lanes: Vec<Vec<(u64, String)>>, count: usize) -> (out: Vec<(u64, String)>)
    ensures
        out@ == leading(sorted_by_candidate(pooled(lanes@)), count as nat),
        out@.len() <= count,
        ordered(out@),
{
    let mut out = sort_by_candidate(pool(lanes));
    proof {
        lemma_sorted_by_candidate(pooled(lanes@));
    }
    out.truncate(count);
    out
}

} // verus!
