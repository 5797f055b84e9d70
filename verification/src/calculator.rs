//! The calculator: what to look for, the test of one candidate, the scan of
//! one lane and the whole search.

use crate::digest::sha256;
use crate::digest::sha256_bytes;
use crate::lanes::in_lane;
use crate::lanes::lane_hits;
use crate::lanes::lemma_lane_advances;
use crate::lanes::lemma_lane_begins;
use crate::lanes::lemma_lane_hits_grow;
use crate::lanes::lemma_lane_hits_skip;
use crate::merge::aggregate;
use crate::merge::candidates;
use crate::merge::leading;
use crate::merge::pooled;
use crate::merge::sorted_by_candidate;
use crate::parallel::pool_threads;
use crate::parallel::run_indexed;
use crate::search::ascii_bytes;
use crate::search::describes;
use crate::search::digest_hex;
use crate::search::domain;
use crate::search::hashed;
use crate::search::is_result_set;
use crate::search::lane_result;
use crate::search::lemma_merged_hashed;
use crate::search::lemma_merged_lanes;
use crate::search::lemma_described_is_result_set;
use crate::search::matcher;
use crate::search::qualifies;
use crate::search::search_result;
use crate::text::decimal_string;
use crate::text::decimal_text;
use crate::text::has_trailing_zeros;
use crate::text::hex_string;
use crate::text::line_text;
use crate::text::render_line;
use vstd::prelude::*;
use vstd::string::*;

verus! {

/// Looks for numbers whose SHA-256 digest ends in a given number of zeros.
pub struct HashCalculator {
    number_of_zeros: usize,
    count_of_hashes: usize,
}

/// The SHA-256 hash of the decimal numeral of `num`.
pub fn digest_bytes(num: u64) -> (hash: Vec<u8>)
    ensures
        hash@ == sha256(ascii_bytes(decimal_text(num as nat))),
        hash@.len() == 32,
{
    let text = decimal_string(num);
    let numeral = text.as_str();
    let bytes = numeral.as_bytes();
    proof {
        is_ascii_spec_bytes(numeral);
        assert(bytes@ =~= ascii_bytes(decimal_text(num as nat)));
    }
    sha256_bytes(bytes)
}

impl HashCalculator {
    /// How many zero characters a digest must end with.
    pub closed spec fn zeros(&self) -> nat {
        self.number_of_zeros as nat
    }

    /// How many digests are asked for.
    pub closed spec fn count(&self) -> nat {
        self.count_of_hashes as nat
    }

    /// A calculator that looks for `count_of_hashes` digests ending in
    /// `number_of_zeros` zeros.
    pub fn new(number_of_zeros: usize, count_of_hashes: usize) -> (calculator: Self)
        ensures
            calculator.zeros() == number_of_zeros,
            calculator.count() == count_of_hashes,
    {
        HashCalculator { number_of_zeros, count_of_hashes }
    }

    /// Hashes `num`: the number with its digest where the digest ends in the
    /// wanted zeros, `None` where it does not.
    pub fn calculate_hash(&self, num: u64) -> (found: Option<(u64, String)>)
        ensures
            found is Some <==> qualifies(self.zeros(), num as nat),
            found matches Some(entry) ==> entry.0 == num && entry.1@ == digest_hex(num as nat)
                && entry.1@.len() == 64,
    {
        let hash = digest_bytes(num);
        if has_trailing_zeros(hash.as_slice(), self.number_of_zeros) {
            Some((num, hex_string(hash.as_slice())))
        } else {
            None
        }
    }

    /// Scans the lane `start, start + stride, start + 2 stride, ...` and
    /// returns its first `count` matches, in ascending order; the scan stops
    /// at the last match it returns.
    pub fn scan_lane(&self, start: u64, stride: u64) -> (found: Vec<(u64, String)>)
        requires
            stride >= 1,
            start < stride,
        ensures
            describes(found@, lane_result(self.zeros(), self.count(), start as nat, stride as nat)),
            is_result_set(found@, self.zeros(), self.count()),
    {
        let ghost hit = matcher(self.zeros());
        let ghost from = start as nat;
        let ghost step = stride as nat;
        let mut found: Vec<(u64, String)> = Vec::new();
        let mut next = start;
        let mut open = true;
        proof {
            lemma_lane_begins(hit, from, step);
            assert(candidates(found@) =~= lane_hits(hit, from, step, from));
        }
        while open && found.len() < self.count_of_hashes
            invariant
                from == start,
                step == stride,
                step >= 1,
                hit == matcher(self.zeros()),
                hashed(found@),
                found@.len() <= self.count(),
                open ==> in_lane(next as nat, from, step),
                open ==> candidates(found@) == lane_hits(hit, from, step, next as nat),
                !open ==> candidates(found@) == lane_hits(hit, from, step, domain()),
            decreases
                    (if open {
                        domain() - next
                    } else {
                        0
                    }),
        {
            match self.calculate_hash(next) {
                Some(entry) => {
                    found.push(entry);
                },
                None => {},
            }
            proof {
                assert(hit(next as nat) == qualifies(self.zeros(), next as nat));
                assert(candidates(found@) =~= lane_hits(hit, from, step, (next + 1) as nat));
            }
            match next.checked_add(stride) {
                Some(after) => {
                    proof {
                        lemma_lane_hits_skip(hit, from, step, next as nat, after as nat);
                        lemma_lane_advances(next as nat, from, step);
                    }
                    next = after;
                },
                None => {
                    proof {
                        lemma_lane_hits_skip(hit, from, step, next as nat, domain());
                    }
                    open = false;
                },
            }
        }
        proof {
            let hits = lane_hits(hit, from, step, domain());
            assert(candidates(found@).len() == found@.len());
            if open {
                lemma_lane_hits_grow(hit, from, step, next as nat, domain());
            } else {
                assert(hits.take(hits.len() as int) =~= hits);
            }
            lemma_described_is_result_set(found@, self.zeros(), self.count(), from, step);
        }
        found
    }

    /// Searches with `workers` workers: each scans its own lane on the
    /// thread pool, and their lists are merged. The result is the same for
    /// every number of workers.
    pub fn find_hashes_with(&self, workers: usize) -> (found: Vec<(u64, String)>)
        requires
            workers >= 1,
        ensures
            describes(found@, search_result(self.zeros(), self.count())),
            is_result_set(found@, self.zeros(), self.count()),
    {
        let scan = |lane: usize| -> (list: Vec<(u64, String)>)
            requires
                lane < workers
            ensures
                describes(
                    list@,
                    lane_result(self.zeros(), self.count(), lane as nat, workers as nat),
                )
            {
                self.scan_lane(lane as u64, workers as u64)
            };
        let lanes = run_indexed(workers, scan);
        proof {
            let hit = matcher(self.zeros());
            assert forall|i: int| 0 <= i < lanes@.len() implies candidates((#[trigger] lanes@[i])@)
                == lane_result(self.zeros(), self.count(), i as nat, workers as nat) && hashed(
                lanes@[i]@,
            ) by {
                assert(call_ensures(scan, (i as usize,), lanes@[i]));
            }
            lemma_merged_lanes(hit, self.count(), domain(), lanes@);
            lemma_merged_hashed(lanes@, self.count());
            lemma_described_is_result_set(
                leading(sorted_by_candidate(pooled(lanes@)), self.count()),
                self.zeros(),
                self.count(),
                0,
                1,
            );
        }
        aggregate(lanes, self.count_of_hashes)
    }

    /// The lines that report the first `count` of the given matches, in the
    /// order given.
    pub fn display_hashes(&self, hashes: &[(u64, String)]) -> (lines: Vec<String>)
        ensures
            lines@.len() == if self.count() <= hashes@.len() {
                self.count()
            } else {
                hashes@.len()
            },
            forall|i: int|
                0 <= i < lines@.len() ==> (#[trigger] lines@[i])@ == line_text(
                    hashes@[i].0 as nat,
                    hashes@[i].1@,
                ),
    {
        let mut lines: Vec<String> = Vec::new();
        let mut i: usize = 0;
        while i < hashes.len() && i < self.count_of_hashes
            invariant
                i <= hashes@.len(),
                i <= self.count(),
                lines@.len() == i,
                forall|k: int|
                    0 <= k < i ==> (#[trigger] lines@[k])@ == line_text(
                        hashes@[k].0 as nat,
                        hashes@[k].1@,
                    ),
            decreases hashes@.len() - i,
        {
            lines.push(render_line(hashes[i].0, hashes[i].1.as_str()));
            i += 1;
        }
        lines
    }

    /// Searches with as many workers as the thread pool has threads, and
    /// with one where the pool reports none.
    pub fn find_hashes(&self) -> (found: Vec<(u64, String)>)
        ensures
            describes(found@, search_result(self.zeros(), self.count())),
            is_result_set(found@, self.zeros(), self.count()),
    {
        self.find_hashes_with(worker_count(Some(pool_threads())))
    }
}

/// Searches for the `result_count` smallest numbers whose digest ends in
/// `zero_count` zeros, with every thread of the pool at work.
pub fn search(zero_count: usize, result_count: usize) -> (found: Vec<(u64, String)>)
    ensures
        describes(found@, search_result(zero_count as nat, result_count as nat)),
        is_result_set(found@, zero_count as nat, result_count as nat),
{
    HashCalculator::new(zero_count, result_count).find_hashes()
}

/// The number of workers for a machine on which `detected` threads can run
/// at once: that number, or 1 where it is not known or not positive.
pub fn worker_count(detected: Option<usize>) -> (workers: usize)
    ensures
        workers >= 1,
        workers == match detected {
            Some(n) if n >= 1 => n,
            _ => 1,
        },
{
    match detected {
        Some(n) => if n >= 1 {
            n
        } else {
            1
        },
        None => 1,
    }
}

} // verus!
