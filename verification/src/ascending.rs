//! Strictly ascending sequences of naturals and their leading parts.

use vstd::prelude::*;

verus! {

/// Every element is smaller than those behind it.
pub open spec fn strictly_ascending(s: Seq<nat>) -> bool {
    forall|i: int, j: int| 0 <= i < j < s.len() ==> s[i] < s[j]
}

/// The first `n` elements of `s`, or all of `s` where it has fewer.
pub open spec fn first_n(s: Seq<nat>, n: nat) -> Seq<nat> {
    if n <= s.len() {
        s.take(n as int)
    } else {
        s
    }
}

/// Every element of `s` occurs in `g`.
pub open spec fn within(s: Seq<nat>, g: Seq<nat>) -> bool {
    forall|i: int| 0 <= i < s.len() ==> g.contains(#[trigger] s[i])
}

/// Where an ascending `s` lies within an ascending `g`, element `j` of `s`
/// stands in `g` at a position `k` that is no earlier than `j`.
pub proof fn lemma_position_within(s: Seq<nat>, g: Seq<nat>, j: int) -> (k: int)
    requires
        strictly_ascending(s),
        strictly_ascending(g),
        within(s, g),
        0 <= j < s.len(),
    ensures
        j <= k < g.len(),
        g[k] == s[j],
    decreases j,
{
    assert(g.contains(s[j]));
    let k = choose|k: int| 0 <= k < g.len() && g[k] == s[j];
    if j > 0 {
        let before = lemma_position_within(s, g, j - 1);
        assert(s[j - 1] < s[j]);
        if k <= before {
            if k < before {
                assert(g[k] < g[before]);
            }
        }
    }
    k
}

/// An ascending `s` that lies within an ascending `g` and holds the first
/// `n` elements of `g` starts with exactly those elements.
pub proof fn lemma_first_n_agree(s: Seq<nat>, g: Seq<nat>, n: nat)
    requires
        strictly_ascending(s),
        strictly_ascending(g),
        within(s, g),
        within(first_n(g, n), s),
    ensures
        first_n(s, n) == first_n(g, n),
{
    let lead = first_n(g, n);
    assert(strictly_ascending(lead));
    if s.len() > 0 {
        lemma_position_within(s, g, s.len() - 1);
    }
    if lead.len() > 0 {
        lemma_position_within(lead, s, lead.len() - 1);
    }
    assert forall|j: int| 0 <= j < lead.len() implies s[j] == lead[j] by {
        let up = lemma_position_within(s, g, j);
        if j < up {
            assert(g[j] < g[up]);
        }
        let down = lemma_position_within(lead, s, j);
        if j < down {
            assert(s[j] < s[down]);
        }
    }
    assert(first_n(s, n) =~= lead);
}

} // verus!
