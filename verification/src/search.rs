//! What a search returns, and why the workers' lists, merged, are that.

use crate::ascending::first_n;
use crate::ascending::lemma_first_n_agree;
use crate::ascending::lemma_position_within;
use crate::ascending::strictly_ascending;
use crate::digest::sha256;
use crate::lanes::all_hits;
use crate::lanes::in_lane;
use crate::lanes::lane_hits;
use crate::lanes::lemma_lane_hits_grow;
use crate::lanes::lemma_lane_hits_members;
use crate::merge::candidates;
use crate::merge::distinct_candidates;
use crate::merge::leading;
use crate::merge::lemma_sorted_by_candidate;
use crate::merge::pooled;
use crate::merge::sorted_by_candidate;
use crate::text::decimal_text;
use crate::text::ends_with_zeros;
use crate::text::hex_lower;
use vstd::prelude::*;

verus! {

/// The number of candidates: they are the integers from 0 to `u64::MAX`.
pub open spec fn domain() -> nat {
    (u64::MAX + 1) as nat
}

/// The bytes of a text of ASCII characters.
pub open spec fn ascii_bytes(text: Seq<char>) -> Seq<u8> {
    Seq::new(text.len(), |i: int| text[i] as u8)
}

/// The digest of candidate `c`: the SHA-256 hash of its decimal numeral, in
/// lowercase hex.
pub open spec fn digest_hex(c: nat) -> Seq<char> {
    hex_lower(sha256(ascii_bytes(decimal_text(c))))
}

/// The digest of `c` ends with `zeros` zero characters.
pub open spec fn qualifies(zeros: nat, c: nat) -> bool {
    ends_with_zeros(digest_hex(c), zeros)
}

/// `qualifies` for a fixed number of zeros, as a predicate on candidates.
pub open spec fn matcher(zeros: nat) -> spec_fn(nat) -> bool {
    |c: nat| qualifies(zeros, c)
}

/// Every entry carries the digest of its candidate, 64 characters long.
pub open spec fn hashed(entries: Seq<(u64, String)>) -> bool {
    forall|i: int|
        0 <= i < entries.len() ==> (#[trigger] entries[i]).1@ == digest_hex(entries[i].0 as nat)
            && entries[i].1@.len() == 64
}

/// The entries are a result for `count` digests with `zeros` trailing zeros:
/// no more than `count` entries, strictly ascending by candidate, each a
/// qualifying candidate with its digest.
pub open spec fn is_result_set(entries: Seq<(u64, String)>, zeros: nat, count: nat) -> bool {
    &&& entries.len() <= count
    &&& strictly_ascending(candidates(entries))
    &&& hashed(entries)
    &&& forall|i: int|
        0 <= i < entries.len() ==> qualifies(zeros, (#[trigger] entries[i]).0 as nat)
}

/// The entries are the given candidates, in that order, each with its
/// digest.
pub open spec fn describes(entries: Seq<(u64, String)>, found: Seq<nat>) -> bool {
    candidates(entries) == found && hashed(entries)
}

/// The candidates that a search for `count` digests with `zeros` trailing
/// zeros returns: the `count` smallest qualifying candidates, ascending, or
/// all qualifying candidates where there are fewer.
pub open spec fn search_result(zeros: nat, count: nat) -> Seq<nat> {
    first_n(all_hits(matcher(zeros), domain()), count)
}

/// The candidates that one worker returns: the first `count` qualifying
/// candidates of its lane.
pub open spec fn lane_result(zeros: nat, count: nat, start: nat, stride: nat) -> Seq<nat> {
    first_n(lane_hits(matcher(zeros), start, stride, domain()), count)
}

/// List `i` holds the first `count` hits of lane `i` of `lanes.len()`, for
/// every `i`.
pub open spec fn lane_lists(
    hit: spec_fn(nat) -> bool,
    count: nat,
    bound: nat,
    lanes: Seq<Vec<(u64, String)>>,
) -> bool {
    forall|i: int|
        0 <= i < lanes.len() ==> candidates((#[trigger] lanes[i])@) == first_n(
            lane_hits(hit, i as nat, lanes.len(), bound),
            count,
        )
}

/// An entry is in the pool exactly if it is in one of the lists.
pub proof fn lemma_pooled_members(lanes: Seq<Vec<(u64, String)>>)
    ensures
        forall|e: (u64, String)| #[trigger]
            pooled(lanes).contains(e) <==> exists|i: int|
                0 <= i < lanes.len() && (#[trigger] lanes[i])@.contains(e),
    decreases lanes.len(),
{
    if lanes.len() > 0 {
        let rest = lanes.drop_last();
        let last = lanes.last()@;
        lemma_pooled_members(rest);
        assert forall|e: (u64, String)| #[trigger]
            pooled(lanes).contains(e) <==> exists|i: int|
                0 <= i < lanes.len() && (#[trigger] lanes[i])@.contains(e) by {
            if pooled(lanes).contains(e) {
                let k = choose|k: int| 0 <= k < pooled(lanes).len() && pooled(lanes)[k] == e;
                if k < pooled(rest).len() {
                    assert(pooled(rest).contains(e));
                    let i = choose|i: int| 0 <= i < rest.len() && (#[trigger] rest[i])@.contains(e);
                    assert(lanes[i]@.contains(e));
                } else {
                    assert(last[k - pooled(rest).len()] == e);
                }
            }
            if exists|i: int| 0 <= i < lanes.len() && (#[trigger] lanes[i])@.contains(e) {
                let i = choose|i: int| 0 <= i < lanes.len() && (#[trigger] lanes[i])@.contains(e);
                if i < rest.len() {
                    assert(rest[i]@.contains(e));
                    assert(pooled(rest).contains(e));
                    let k = choose|k: int| 0 <= k < pooled(rest).len() && pooled(rest)[k] == e;
                    assert(pooled(lanes)[k] == e);
                } else {
                    let k = choose|k: int| 0 <= k < last.len() && last[k] == e;
                    assert(pooled(lanes)[pooled(rest).len() + k] == e);
                }
            }
        }
    }
}

/// Entry `k` of list `i` is hit number `k` of lane `i`.
proof fn lemma_lane_entry(
    hit: spec_fn(nat) -> bool,
    count: nat,
    bound: nat,
    lanes: Seq<Vec<(u64, String)>>,
    i: int,
    k: int,
)
    requires
        lane_lists(hit, count, bound, lanes),
        0 <= i < lanes.len(),
        0 <= k < lanes[i]@.len(),
    ensures
        k < count,
        k < lane_hits(hit, i as nat, lanes.len(), bound).len(),
        lanes[i]@[k].0 as nat == lane_hits(hit, i as nat, lanes.len(), bound)[k],
        lanes[i]@[k].0 < bound,
        in_lane(lanes[i]@[k].0 as nat, i as nat, lanes.len()),
        hit(lanes[i]@[k].0 as nat),
{
    let hits = lane_hits(hit, i as nat, lanes.len(), bound);
    let list = lanes[i]@;
    assert(candidates(list)[k] == list[k].0);
    assert(candidates(list).len() == list.len());
    lemma_lane_hits_members(hit, i as nat, lanes.len(), bound);
    assert(hits.contains(hits[k]));
}

/// No candidate occurs twice in the pool of the first `n` lists, and each
/// comes from one of the first `n` lanes.
proof fn lemma_pooled_distinct(
    hit: spec_fn(nat) -> bool,
    count: nat,
    bound: nat,
    lanes: Seq<Vec<(u64, String)>>,
    n: int,
)
    requires
        lane_lists(hit, count, bound, lanes),
        0 <= n <= lanes.len(),
    ensures
        distinct_candidates(pooled(lanes.take(n))),
        forall|k: int|
            0 <= k < pooled(lanes.take(n)).len() ==> ((#[trigger] pooled(
                lanes.take(n),
            )[k]).0 as nat) % lanes.len() < n,
    decreases n,
{
    let pool = pooled(lanes.take(n));
    if n > 0 {
        let rest = pooled(lanes.take(n - 1));
        let list = lanes[n - 1]@;
        let hits = lane_hits(hit, (n - 1) as nat, lanes.len(), bound);
        assert(lanes.take(n).drop_last() =~= lanes.take(n - 1));
        lemma_pooled_distinct(hit, count, bound, lanes, n - 1);
        lemma_lane_hits_members(hit, (n - 1) as nat, lanes.len(), bound);
        assert forall|k: int| 0 <= k < pool.len() implies ((#[trigger] pool[k]).0 as nat)
            % lanes.len() < n by {
            if k >= rest.len() {
                lemma_lane_entry(hit, count, bound, lanes, n - 1, k - rest.len());
            }
        }
        assert forall|a: int, b: int| 0 <= a < b < pool.len() implies pool[a].0 != pool[b].0 by {
            // Both in the earlier lists, or one there and one in the last
            // list, whose lane is another, or both in the last list, which
            // is ascending.
            if b >= rest.len() {
                lemma_lane_entry(hit, count, bound, lanes, n - 1, b - rest.len());
                if a >= rest.len() {
                    lemma_lane_entry(hit, count, bound, lanes, n - 1, a - rest.len());
                }
            }
        }
    }
}

/// The lists of the workers, pooled, ordered by candidate and cut to `count`
/// entries, hold the first `count` hits of the whole range below `bound`,
/// however many workers there are.
pub proof fn lemma_merged_lanes(
    hit: spec_fn(nat) -> bool,
    count: nat,
    bound: nat,
    lanes: Seq<Vec<(u64, String)>>,
)
    requires
        lanes.len() >= 1,
        lane_lists(hit, count, bound, lanes),
    ensures
        candidates(leading(sorted_by_candidate(pooled(lanes)), count)) == first_n(
            all_hits(hit, bound),
            count,
        ),
{
    let workers = lanes.len();
    let pool = pooled(lanes);
    let sorted = sorted_by_candidate(pool);
    let keys = candidates(sorted);
    let all = all_hits(hit, bound);
    assert(lanes.take(workers as int) =~= lanes);
    lemma_pooled_distinct(hit, count, bound, lanes, workers as int);
    lemma_pooled_members(lanes);
    lemma_sorted_by_candidate(pool);
    lemma_lane_hits_members(hit, 0, 1, bound);
    // Every candidate of the pool is a hit of the whole range.
    assert forall|m: int| 0 <= m < keys.len() implies all.contains(#[trigger] keys[m]) by {
        assert(sorted.contains(sorted[m]));
        let i = choose|i: int| 0 <= i < lanes.len() && (#[trigger] lanes[i])@.contains(sorted[m]);
        let k = choose|k: int| 0 <= k < lanes[i]@.len() && lanes[i]@[k] == sorted[m];
        lemma_lane_entry(hit, count, bound, lanes, i, k);
    }
    // Every one of the first `count` hits of the whole range is in the pool.
    assert forall|j: int| 0 <= j < first_n(all, count).len() implies keys.contains(
        #[trigger] first_n(all, count)[j],
    ) by {
        let c = all[j];
        assert(all.contains(c));
        let i = (c % workers) as int;
        assert(0 <= i < workers) by (nonlinear_arith)
            requires
                i == c % workers,
                workers >= 1,
        ;
        let hits = lane_hits(hit, i as nat, workers, bound);
        lemma_lane_hits_members(hit, i as nat, workers, bound);
        assert(hits.contains(c));
        let k = choose|k: int| 0 <= k < hits.len() && hits[k] == c;
        assert forall|a: int| 0 <= a < hits.len() implies all.contains(#[trigger] hits[a]) by {
            assert(hits.contains(hits[a]));
        }
        // `c` is hit `k` of its lane and hit `j` of the whole range, and
        // `k <= j < count`: the lane's worker has it in its list.
        let up = lemma_position_within(hits, all, k);
        assert(up == j) by {
            if up < j {
                assert(all[up] < all[j]);
            }
            if j < up {
                assert(all[j] < all[up]);
            }
        }
        let list = lanes[i]@;
        assert(k < first_n(hits, count).len());
        assert(candidates(list)[k] == c);
        assert(sorted.contains(list[k]));
        let m = choose|m: int| 0 <= m < sorted.len() && sorted[m] == list[k];
        assert(keys[m] == c);
    }
    lemma_first_n_agree(keys, all, count);
}

/// Pooling, ordering and cutting the lists leaves every entry with the
/// digest of its candidate.
pub proof fn lemma_merged_hashed(lanes: Seq<Vec<(u64, String)>>, count: nat)
    requires
        forall|i: int| 0 <= i < lanes.len() ==> hashed((#[trigger] lanes[i])@),
    ensures
        hashed(leading(sorted_by_candidate(pooled(lanes)), count)),
{
    let pool = pooled(lanes);
    let sorted = sorted_by_candidate(pool);
    let kept = leading(sorted, count);
    lemma_pooled_members(lanes);
    lemma_sorted_by_candidate(pool);
    assert forall|m: int| 0 <= m < kept.len() implies (#[trigger] kept[m]).1@ == digest_hex(
        kept[m].0 as nat,
    ) && kept[m].1@.len() == 64 by {
        assert(sorted.contains(sorted[m]));
        let i = choose|i: int| 0 <= i < lanes.len() && (#[trigger] lanes[i])@.contains(sorted[m]);
        assert(hashed(lanes[i]@));
    }
}

/// How many qualifying candidates are smaller than `c`.
pub open spec fn rank(zeros: nat, c: nat) -> nat {
    all_hits(matcher(zeros), c).len()
}

/// A qualifying candidate is in the result of every search that asks for
/// more digests than there are qualifying candidates below it: once, at the
/// position that is its rank.
pub proof fn lemma_match_is_found(zeros: nat, count: nat, c: nat)
    requires
        c < domain(),
        qualifies(zeros, c),
        rank(zeros, c) < count,
    ensures
        rank(zeros, c) < search_result(zeros, count).len(),
        search_result(zeros, count)[rank(zeros, c) as int] == c,
        forall|i: int|
            0 <= i < search_result(zeros, count).len() && i != rank(zeros, c) ==> search_result(
                zeros,
                count,
            )[i] != c,
{
    let hit = matcher(zeros);
    let all = all_hits(hit, domain());
    let upto = all_hits(hit, c + 1);
    lemma_lane_hits_grow(hit, 0, 1, c + 1, domain());
    assert(all[rank(zeros, c) as int] == upto[rank(zeros, c) as int]);
    lemma_search_result_ascending(zeros, count);
}

/// A search returns as many entries as were asked for, or every qualifying
/// candidate where there are fewer: never more than were asked for.
pub proof fn lemma_search_result_length(zeros: nat, count: nat)
    ensures
        search_result(zeros, count).len() <= count,
        search_result(zeros, count).len() == if count <= all_hits(matcher(zeros), domain()).len() {
            count
        } else {
            all_hits(matcher(zeros), domain()).len()
        },
{
}

/// The result of a search is strictly ascending, so no candidate is in it
/// twice, and every candidate in it qualifies.
pub proof fn lemma_search_result_ascending(zeros: nat, count: nat)
    ensures
        strictly_ascending(search_result(zeros, count)),
        forall|i: int|
            0 <= i < search_result(zeros, count).len() ==> qualifies(
                zeros,
                #[trigger] search_result(zeros, count)[i],
            ) && search_result(zeros, count)[i] < domain(),
{
    let all = all_hits(matcher(zeros), domain());
    lemma_lane_hits_members(matcher(zeros), 0, 1, domain());
    assert forall|i: int| 0 <= i < search_result(zeros, count).len() implies qualifies(
        zeros,
        #[trigger] search_result(zeros, count)[i],
    ) && search_result(zeros, count)[i] < domain() by {
        assert(all.contains(all[i]));
    }
}

/// A list that describes the result of a search, or the result of one
/// worker, is a result set.
pub proof fn lemma_described_is_result_set(
    entries: Seq<(u64, String)>,
    zeros: nat,
    count: nat,
    start: nat,
    stride: nat,
)
    requires
        describes(entries, lane_result(zeros, count, start, stride)),
    ensures
        is_result_set(entries, zeros, count),
{
    let hits = lane_hits(matcher(zeros), start, stride, domain());
    lemma_lane_hits_members(matcher(zeros), start, stride, domain());
    assert(candidates(entries).len() == entries.len());
    assert forall|i: int| 0 <= i < entries.len() implies qualifies(
        zeros,
        (#[trigger] entries[i]).0 as nat,
    ) by {
        assert(candidates(entries)[i] == hits[i]);
        assert(hits.contains(hits[i]));
    }
}

/// Two lists that describe the result of the same search are the same list:
/// the same candidates with the same digests, in the same order.
pub proof fn lemma_same_search_same_list(
    first: Seq<(u64, String)>,
    second: Seq<(u64, String)>,
    zeros: nat,
    count: nat,
)
    requires
        describes(first, search_result(zeros, count)),
        describes(second, search_result(zeros, count)),
    ensures
        first.len() == second.len(),
        forall|i: int|
            0 <= i < first.len() ==> first[i].0 == second[i].0 && first[i].1@ == second[i].1@,
{
    assert(candidates(second).len() == second.len());
    assert forall|i: int| 0 <= i < first.len() implies first[i].0 == second[i].0 && first[i].1@
        == second[i].1@ by {
        assert(candidates(first)[i] == candidates(second)[i]);
    }
}

} // verus!
