//! Candidate filtering and ranking for the request path.
//!
//! A request handler fetches a page of gallery items, drops the deleted
//! ones and the ones this scope has seen, and posts the best-ranked
//! survivor.  Both decisions live here as pure functions over plain
//! values; the handler only fetches, calls, and posts.

use vstd::prelude::*;
use crate::scoped::ScopedCache;
use crate::scoped::cache_contains;

verus! {

/// One fetched gallery item, reduced to what the request path decides on.
#[derive(Clone, Copy, PartialEq, Eq, Structural, Debug)]
pub struct Candidate {
    /// The item's identifier.
    pub id: u64,
    /// Its up-votes.
    pub up: i64,
    /// Its down-votes.
    pub down: i64,
    /// Whether the gallery marked it deleted.
    pub deleted: bool,
}

/// A candidate's rank: up-votes minus down-votes.
pub open spec fn score(c: Candidate) -> int {
    c.up - c.down
}

/// Whether the request path keeps a candidate for `scope`: not deleted
/// and not shown there before.
pub open spec fn keeps(m: Map<u64, Seq<u64>>, scope: u64, c: Candidate) -> bool {
    !c.deleted && !cache_contains(m, scope, c.id)
}

/// Drops the deleted candidates and those already shown in `scope`,
/// keeping the order of the rest.
pub fn filter_candidates(candidates: &Vec<Candidate>, cache: &ScopedCache, scope: u64) -> (kept:
    Vec<Candidate>)
    requires
        cache.wf(),
    ensures
        kept@ == candidates@.filter(|c: Candidate| keeps(cache@, scope, c)),
{
    let ghost pred = |c: Candidate| keeps(cache@, scope, c);
    let mut kept: Vec<Candidate> = Vec::new();
    let n = candidates.len();
    proof {
        reveal(Seq::<Candidate>::filter);
        assert(candidates@.subrange(0, 0).filter(pred) =~= Seq::<Candidate>::empty());
    }
    let mut i: usize = 0;
    while i < n
        invariant
            cache.wf(),
            n == candidates@.len(),
            i <= n,
            kept@ == candidates@.subrange(0, i as int).filter(pred),
            pred == (|c: Candidate| keeps(cache@, scope, c)),
        decreases n - i,
    {
        let c = candidates[i];
        let ghost prefix = candidates@.subrange(0, i as int);
        let keep = !c.deleted && !cache.contains(scope, c.id);
        proof {
            reveal(Seq::<Candidate>::filter);
            assert(keep == pred(c));
            assert(candidates@.subrange(0, i as int + 1) =~= prefix.push(c));
            assert(prefix.push(c).drop_last() =~= prefix);
            assert(prefix.push(c).last() == c);
            if pred(c) {
                assert(prefix.push(c).filter(pred) =~= prefix.filter(pred).push(c));
            } else {
                assert(prefix.push(c).filter(pred) =~= prefix.filter(pred));
            }
        }
        if keep {
            kept.push(c);
        }
        i = i + 1;
    }
    proof {
        assert(candidates@.subrange(0, n as int) =~= candidates@);
    }
    kept
}

/// The position of the best candidate: the last one whose score no other
/// exceeds.  Nothing exactly when there are no candidates.
pub fn pick_best(candidates: &Vec<Candidate>) -> (best: Option<usize>)
    ensures
        best is Some <==> candidates@.len() > 0,
        match best {
            Some(b) => {
                &&& (b as int) < candidates@.len()
                &&& forall|j: int|
                    0 <= j < candidates@.len() ==> score(#[trigger] candidates@[j]) <= score(
                        candidates@[b as int],
                    )
                &&& forall|j: int|
                    b < j < candidates@.len() ==> score(#[trigger] candidates@[j]) < score(
                        candidates@[b as int],
                    )
            },
            None => true,
        },
{
    let n = candidates.len();
    if n == 0 {
        return None;
    }
    let mut best: usize = 0;
    let mut i: usize = 1;
    while i < n
        invariant
            n == candidates@.len(),
            0 < n,
            best < i <= n,
            forall|j: int|
                0 <= j < i ==> score(#[trigger] candidates@[j]) <= score(candidates@[best as int]),
            forall|j: int|
                best < j < i ==> score(#[trigger] candidates@[j]) < score(
                    candidates@[best as int],
                ),
        decreases n - i,
    {
        let challenger = candidates[i];
        let leader = candidates[best];
        if (challenger.up as i128) - (challenger.down as i128) >= (leader.up as i128) - (
        leader.down as i128) {
            best = i;
        }
        i = i + 1;
    }
    Some(best)
}

} // verus!
