//! Splitting the candidates among workers: worker `i` of `w` takes
//! `i, i + w, i + 2w, ...`.

use crate::ascending::strictly_ascending;
use vstd::prelude::*;

verus! {

/// Candidate `c` belongs to the lane that starts at `start` and advances by
/// `stride`.
pub open spec fn in_lane(c: nat, start: nat, stride: nat) -> bool {
    stride > 0 && c % stride == start
}

/// The candidates below `bound` that belong to the lane and satisfy `hit`,
/// in ascending order.
pub open spec fn lane_hits(hit: spec_fn(nat) -> bool, start: nat, stride: nat, bound: nat) -> Seq<
    nat,
>
    decreases bound,
{
    if bound == 0 {
        Seq::empty()
    } else {
        let c = (bound - 1) as nat;
        let below = lane_hits(hit, start, stride, c);
        if in_lane(c, start, stride) && hit(c) {
            below.push(c)
        } else {
            below
        }
    }
}

/// The candidates below `bound` that satisfy `hit`, in ascending order: the
/// single lane of one worker.
pub open spec fn all_hits(hit: spec_fn(nat) -> bool, bound: nat) -> Seq<nat> {
    lane_hits(hit, 0, 1, bound)
}

/// `lane_hits` holds exactly the lane's hits below the bound, each once and
/// in ascending order.
pub proof fn lemma_lane_hits_members(
    hit: spec_fn(nat) -> bool,
    start: nat,
    stride: nat,
    bound: nat,
)
    ensures
        strictly_ascending(lane_hits(hit, start, stride, bound)),
        forall|c: nat|
            #[trigger] lane_hits(hit, start, stride, bound).contains(c) <==> (c < bound && in_lane(
                c,
                start,
                stride,
            ) && hit(c)),
    decreases bound,
{
    let hits = lane_hits(hit, start, stride, bound);
    if bound > 0 {
        let last = (bound - 1) as nat;
        let below = lane_hits(hit, start, stride, last);
        lemma_lane_hits_members(hit, start, stride, last);
        assert forall|i: int| 0 <= i < below.len() implies below[i] < last by {
            assert(below.contains(below[i]));
        }
        assert forall|c: nat| #[trigger]
            hits.contains(c) <==> (c < bound && in_lane(c, start, stride) && hit(c)) by {
            if hits.contains(c) {
                let i = choose|i: int| 0 <= i < hits.len() && hits[i] == c;
                if i < below.len() {
                    assert(below.contains(c));
                }
            }
            if c < bound && in_lane(c, start, stride) && hit(c) {
                if c == last {
                    assert(hits[hits.len() - 1] == c);
                } else {
                    assert(below.contains(c));
                    let i = choose|i: int| 0 <= i < below.len() && below[i] == c;
                    assert(hits[i] == c);
                }
            }
        }
    }
}

/// Raising the bound only adds hits at the end.
pub proof fn lemma_lane_hits_grow(
    hit: spec_fn(nat) -> bool,
    start: nat,
    stride: nat,
    low: nat,
    high: nat,
)
    requires
        low <= high,
    ensures
        lane_hits(hit, start, stride, low).len() <= lane_hits(hit, start, stride, high).len(),
        lane_hits(hit, start, stride, low) == lane_hits(hit, start, stride, high).take(
            lane_hits(hit, start, stride, low).len() as int,
        ),
    decreases high,
{
    let short = lane_hits(hit, start, stride, low);
    if low < high {
        lemma_lane_hits_grow(hit, start, stride, low, (high - 1) as nat);
        assert(short =~= lane_hits(hit, start, stride, high).take(short.len() as int));
    } else {
        assert(short =~= short.take(short.len() as int));
    }
}

/// Between a member of a lane and the next one no candidate belongs to the
/// lane.
pub proof fn lemma_lane_hits_skip(
    hit: spec_fn(nat) -> bool,
    start: nat,
    stride: nat,
    c: nat,
    bound: nat,
)
    requires
        in_lane(c, start, stride),
        c < bound <= c + stride,
    ensures
        lane_hits(hit, start, stride, bound) == lane_hits(hit, start, stride, c + 1),
    decreases bound,
{
    if bound > c + 1 {
        let last = (bound - 1) as nat;
        lemma_lane_hits_skip(hit, start, stride, c, last);
        assert(!in_lane(last, start, stride)) by {
            lemma_next_in_lane(c, last, stride);
        }
    }
}

/// The predicate that every candidate satisfies.
pub open spec fn everything() -> spec_fn(nat) -> bool {
    |c: nat| true
}

/// The members of lane `start` of `stride` below `bound`, ascending.
pub open spec fn lane_members(start: nat, stride: nat, bound: nat) -> Seq<nat> {
    lane_hits(everything(), start, stride, bound)
}

/// The lanes of `workers` workers part every range `0..bound`: a candidate
/// below `bound` is a member of lane `c % workers` and of no other, no lane
/// holds anything else, and no lane holds a candidate twice.
pub proof fn lemma_lanes_cover(workers: nat, bound: nat)
    requires
        workers >= 1,
    ensures
        forall|c: nat| c < bound ==> c % workers < workers && #[trigger] lane_members(
            c % workers,
            workers,
            bound,
        ).contains(c),
        forall|c: nat, lane: nat|
            lane < workers && #[trigger] lane_members(lane, workers, bound).contains(c) ==> c
                < bound && lane == c % workers,
        forall|lane: nat|
            lane < workers ==> strictly_ascending(#[trigger] lane_members(lane, workers, bound)),
{
    assert forall|c: nat| c < bound implies c % workers < workers && #[trigger] lane_members(
        c % workers,
        workers,
        bound,
    ).contains(c) by {
        assert(c % workers < workers) by (nonlinear_arith)
            requires
                workers >= 1,
        ;
        lemma_lane_hits_members(everything(), c % workers, workers, bound);
    }
    assert forall|c: nat, lane: nat|
        lane < workers && #[trigger] lane_members(lane, workers, bound).contains(c) implies c
        < bound && lane == c % workers by {
        lemma_lane_hits_members(everything(), lane, workers, bound);
    }
    assert forall|lane: nat| lane < workers implies strictly_ascending(
        #[trigger] lane_members(lane, workers, bound),
    ) by {
        lemma_lane_hits_members(everything(), lane, workers, bound);
    }
}

/// Member `j` of lane `start` of `stride` is `start + j * stride`.
pub proof fn lemma_lane_member_at(start: nat, stride: nat, bound: nat, j: int)
    requires
        start < stride,
        0 <= j < lane_members(start, stride, bound).len(),
    ensures
        lane_members(start, stride, bound)[j] == start + j * stride,
    decreases j,
{
    let members = lane_members(start, stride, bound);
    lemma_lane_hits_members(everything(), start, stride, bound);
    assert(members.contains(members[j]));
    if j == 0 {
        lemma_lane_begins(everything(), start, stride);
        assert(start <= members[0]) by (nonlinear_arith)
            requires
                stride > 0,
                members[0] % stride == start,
        ;
        assert(members.contains(start));
        let at = choose|at: int| 0 <= at < members.len() && members[at] == start;
        if at > 0 {
            assert(members[0] < members[at]);
        }
    } else {
        lemma_lane_member_at(start, stride, bound, j - 1);
        let before = members[j - 1];
        let next = before + stride;
        assert(members.contains(before));
        assert(before < members[j]);
        if members[j] < next {
            lemma_next_in_lane(before, members[j], stride);
        }
        lemma_lane_advances(before, start, stride);
        assert(members.contains(next));
        let at = choose|at: int| 0 <= at < members.len() && members[at] == next;
        if at < j {
            if at < j - 1 {
                assert(members[at] < members[j - 1]);
            }
        }
        if at > j {
            assert(members[j] < members[at]);
        }
        assert(start + (j - 1) * stride + stride == start + j * stride) by (nonlinear_arith);
    }
}

/// A lane begins at its start: the start belongs to it and nothing below
/// the start does.
pub proof fn lemma_lane_begins(hit: spec_fn(nat) -> bool, start: nat, stride: nat)
    requires
        start < stride,
    ensures
        in_lane(start, start, stride),
        lane_hits(hit, start, stride, start) == Seq::<nat>::empty(),
{
    assert(start % stride == start) by (nonlinear_arith)
        requires
            start < stride,
    ;
    let hits = lane_hits(hit, start, stride, start);
    lemma_lane_hits_members(hit, start, stride, start);
    if hits.len() > 0 {
        let c = hits[0];
        assert(hits.contains(c));
        assert(c % stride == c) by (nonlinear_arith)
            requires
                c < stride,
        ;
    }
    assert(hits =~= Seq::<nat>::empty());
}

/// One stride behind a member of a lane stands the next member.
pub proof fn lemma_lane_advances(c: nat, start: nat, stride: nat)
    requires
        in_lane(c, start, stride),
    ensures
        in_lane(c + stride, start, stride),
{
    assert((c + stride) % stride == c % stride) by (nonlinear_arith)
        requires
            stride > 0,
    ;
}

/// Two candidates with the same remainder differ by at least the divisor.
pub proof fn lemma_next_in_lane(c: nat, d: nat, stride: nat)
    requires
        stride > 0,
        c < d < c + stride,
    ensures
        c % stride != d % stride,
{
    assert(c % stride != d % stride) by (nonlinear_arith)
        requires
            stride > 0,
            c < d < c + stride,
    ;
}

} // verus!
