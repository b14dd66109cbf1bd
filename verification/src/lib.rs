//! A small article submission and voting service, modelled after a
//! Reddit-style ranking scheme kept in a remote key-value store.
//!
//! The library holds the whole data model as a value of its own
//! ([`store::Store`]): article records, the global score and recency
//! indexes, per-article voter sets, group membership sets and the
//! short-lived per-group ranking caches. Every operation on that model
//! is verified. A deployment that keeps the same data in a remote store
//! drives that store from outside the library and uses the verified
//! arithmetic (cutoff times, pagination ranks, key parsing) from here.

use vstd::prelude::*;

pub mod keys;
pub mod laws;
pub mod store;
pub mod zset;

verus! {

/// Length of the voting window, and the time-to-live of a voter set,
/// in seconds.
pub const ONE_WEEK_IN_SECONDS: u64 = 604800;

/// How much one vote adds to an article's score.
pub const VOTE_SCORE: u64 = 432;

/// Number of articles on one page of a listing.
pub const ARTICLES_PER_PAGE: u64 = 25;

/// Time-to-live of a cached per-group ranking, in seconds.
pub const GROUP_CACHE_TTL: u64 = 60;

/// The oldest posting time still inside the voting window at time `now`:
/// an article is too old to vote on when its recorded time is strictly
/// below this cutoff.
pub open spec fn spec_vote_cutoff(now: u64) -> u64 {
    if now >= ONE_WEEK_IN_SECONDS {
        (now - ONE_WEEK_IN_SECONDS) as u64
    } else {
        0
    }
}

/// Computes the cutoff time for the voting window: one week before `now`,
/// saturating at the epoch.
pub fn vote_cutoff(now: u64) -> (r: u64)
    ensures
        r == spec_vote_cutoff(now),
{
    if now >= ONE_WEEK_IN_SECONDS {
        now - ONE_WEEK_IN_SECONDS
    } else {
        0
    }
}

/// Rank of the first entry of page `page` (1-based) in a ranking.
pub open spec fn spec_page_start(page: u8) -> int {
    (page - 1) * ARTICLES_PER_PAGE
}

/// Computes the rank range covered by page `page`: the first rank on the
/// page and the rank one past its last entry.
pub fn page_bounds(page: u8) -> (r: (usize, usize))
    requires
        page >= 1,
    ensures
        r.0 == spec_page_start(page),
        r.1 == spec_page_start(page) + ARTICLES_PER_PAGE,
{
    let p: usize = page as usize;
    let start: usize = (p - 1) * 25;
    (start, start + 25)
}

} // verus!
