//! Laws of the service, proved once and for all: pages come out in
//! ranking order and never overlap; a group's derived ranking holds
//! exactly the members the global ranking knows; a group listing
//! repeated within the cache's lifetime changes nothing and returns
//! the same page; and a counted vote refuses every later vote by the
//! same user on the same article.

use vstd::prelude::*;
use crate::store::Store;
use crate::store::OrderKind;
use crate::store::GroupCache;
use crate::store::has_cache;
use crate::store::cache_idx;
use crate::store::cache_of;
use crate::store::cache_fresh;
use crate::store::cache_updated;
use crate::store::group_members;
use crate::store::in_group;
use crate::store::has_article_in;
use crate::store::article_of;
use crate::store::article_idx;
use crate::store::global_ranking;
use crate::store::resolve_order;
use crate::store::order_kind_of;
use crate::store::page_slice;
use crate::store::records_of;
use crate::store::listgroup_post;
use crate::store::vote_applied;
use crate::store::is_voter;
use crate::store::vote_outcome;
use crate::store::StoreError;
use crate::keys::spec_parse_article_key;
use crate::zset::inter;
use crate::zset::lemma_inter_contains;
use crate::zset::sorted;
use crate::zset::ids_unique;
use crate::zset::zcontains;
use crate::ARTICLES_PER_PAGE;
use crate::GROUP_CACHE_TTL;
use crate::spec_page_start;

verus! {

/// The ranking that an order key names in a well-formed store is
/// sorted and ranks no identifier twice.
proof fn lemma_resolved_wf(s: Store, order: Seq<char>, now: u64)
    requires
        s.wf(),
    ensures
        sorted(resolve_order(s, order, now)),
        ids_unique(resolve_order(s, order, now)),
        forall|k: int|
            0 <= k < resolve_order(s, order, now).len() ==> has_article_in(
                s.articles@,
                (#[trigger] resolve_order(s, order, now)[k]).0,
            ),
{
    let e = resolve_order(s, order, now);
    match order_kind_of(order) {
        Some(kg) => {
            if kg.1.len() == 0 {
            } else if cache_fresh(s.caches@, kg.0, kg.1, now) {
                let ci = cache_idx(s.caches@, kg.0, kg.1);
                assert(0 <= ci < s.caches@.len() && s.caches@[ci].order == kg.0
                    && s.caches@[ci].group@ == kg.1);
                assert(s.caches@[ci].entries.wf());
                assert(forall|k: int|
                    0 <= k < s.caches@[ci].entries@.len() ==> has_article_in(
                        s.articles@,
                        #[trigger] s.caches@[ci].entries@[k].0,
                    ));
            }
        },
        None => {},
    }
}

/// A page is a slice of the ranking: entry `i` of the page stands at
/// rank `start + i` overall.
proof fn lemma_page_slice_index(e: Seq<(u64, u64)>, page: u8, i: int)
    requires
        page >= 1,
        0 <= i < page_slice(e, page).len(),
    ensures
        spec_page_start(page) + i < e.len(),
        page_slice(e, page)[i] == e[spec_page_start(page) + i],
{
}

/// Pagination: a page of a listing holds at most a page's worth of
/// records, ranked best first (each record's ranking entry ranks
/// strictly before the next one's), and record `i` is the full record
/// of the article at rank `start + i`.
pub proof fn lemma_page_in_order(s: Store, page: u8, order: Seq<char>, now: u64)
    requires
        s.wf(),
        page >= 1,
    ensures
        page_slice(resolve_order(s, order, now), page).len() <= ARTICLES_PER_PAGE,
        sorted(page_slice(resolve_order(s, order, now), page)),
        forall|i: int|
            0 <= i < page_slice(resolve_order(s, order, now), page).len()
                ==> (#[trigger] records_of(
                s.articles@,
                page_slice(resolve_order(s, order, now), page),
            )[i]).id == page_slice(resolve_order(s, order, now), page)[i].0,
{
    let e = resolve_order(s, order, now);
    let p = page_slice(e, page);
    lemma_resolved_wf(s, order, now);
    assert forall|i: int, j: int| 0 <= i < j < p.len() implies crate::zset::ranks_before(
        p[i],
        p[j],
    ) by {
        lemma_page_slice_index(e, page, i);
        lemma_page_slice_index(e, page, j);
    }
    assert forall|i: int| 0 <= i < p.len() implies (#[trigger] records_of(s.articles@, p)[i]).id
        == p[i].0 by {
        lemma_page_slice_index(e, page, i);
        assert(has_article_in(s.articles@, p[i].0));
        let a = article_idx(s.articles@, p[i].0);
        assert(s.articles@[a].id == p[i].0);
    }
}

/// Pagination: two different pages of one listing share no article.
pub proof fn lemma_pages_disjoint(s: Store, p1: u8, p2: u8, order: Seq<char>, now: u64)
    requires
        s.wf(),
        p1 >= 1,
        p2 >= 1,
        p1 != p2,
    ensures
        forall|i: int, j: int|
            0 <= i < page_slice(resolve_order(s, order, now), p1).len() && 0 <= j < page_slice(
                resolve_order(s, order, now),
                p2,
            ).len() ==> (#[trigger] page_slice(resolve_order(s, order, now), p1)[i]).0 != (
            #[trigger] page_slice(resolve_order(s, order, now), p2)[j]).0,
{
    let e = resolve_order(s, order, now);
    let s1 = page_slice(e, p1);
    let s2 = page_slice(e, p2);
    lemma_resolved_wf(s, order, now);
    assert forall|i: int, j: int| 0 <= i < s1.len() && 0 <= j < s2.len() implies (
    #[trigger] s1[i]).0 != (#[trigger] s2[j]).0 by {
        lemma_page_slice_index(e, p1, i);
        lemma_page_slice_index(e, p2, j);
        let a = spec_page_start(p1) + i;
        let b = spec_page_start(p2) + j;
        assert(a != b) by {
            if p1 < p2 {
                assert(spec_page_start(p1) + ARTICLES_PER_PAGE <= spec_page_start(p2));
                assert(i < ARTICLES_PER_PAGE);
            } else {
                assert(spec_page_start(p2) + ARTICLES_PER_PAGE <= spec_page_start(p1));
                assert(j < ARTICLES_PER_PAGE);
            }
        }
        assert(e[a].0 != e[b].0);
    }
}

/// Group listings: a group's derived ranking holds exactly the
/// articles that are members of the group and ranked in the chosen
/// global ranking.
pub proof fn lemma_group_ranking_membership(s: Store, kind: OrderKind, g: Seq<char>, id: u64)
    requires
        s.wf(),
    ensures
        zcontains(inter(global_ranking(s, kind), group_members(s.groups@, g)), id) <==> (in_group(
            s.groups@,
            g,
            id,
        ) && zcontains(global_ranking(s, kind), id)),
{
    let gl = global_ranking(s, kind);
    let m = group_members(s.groups@, g);
    let e = inter(gl, m);
    if zcontains(e, id) {
        let k = crate::zset::zindex_of(e, id);
        assert(e.contains(e[k]));
        lemma_inter_contains(gl, m, e[k]);
        let k0 = choose|x: int| 0 <= x < gl.len() && gl[x] == e[k];
        assert(zcontains(gl, id));
    }
    if in_group(s.groups@, g, id) && zcontains(gl, id) {
        let k = crate::zset::zindex_of(gl, id);
        lemma_inter_contains(gl, m, gl[k]);
        assert(e.contains(gl[k]));
        let k1 = choose|x: int| 0 <= x < e.len() && e[x] == gl[k];
        assert(zcontains(e, id));
    }
}

/// Every article on a page of a ranking is in that ranking.
pub proof fn lemma_page_from_ranking(e: Seq<(u64, u64)>, page: u8, id: u64)
    requires
        page >= 1,
        zcontains(page_slice(e, page), id),
    ensures
        zcontains(e, id),
{
    let p = page_slice(e, page);
    let k = crate::zset::zindex_of(p, id);
    lemma_page_slice_index(e, page, k);
    assert(e[spec_page_start(page) + k].0 == id);
}

/// One vote per user: once a vote by `user` on article `id` has been
/// counted, every later vote by the same user on the same article is
/// refused, at any time.
pub proof fn lemma_repeat_vote_refused(
    s0: Store,
    s1: Store,
    id: u64,
    user: Seq<char>,
    article: Seq<char>,
    now2: u64,
)
    requires
        s0.wf(),
        has_article_in(s0.articles@, id),
        spec_parse_article_key(article) == Some(id),
        vote_applied(s0, s1, id, user),
    ensures
        vote_outcome(s1, user, article, now2) == Result::<bool, StoreError>::Ok(false),
{
    assert(zcontains(s0.time_index@, id)) by {
        let a = article_idx(s0.articles@, id);
        assert(zcontains(s0.time_index@, s0.articles@[a].id));
    }
    assert(s1.time_index == s0.time_index);
    assert(is_voter(s1.voters@, id, user));
}

/// Cache idempotence: when a group listing finds no fresh cache and
/// computes one, a second listing of the same group, kind and page
/// within the cache's lifetime leaves the store exactly as the first
/// call left it and returns the same page.
pub proof fn lemma_listgroup_idempotent(
    s0: Store,
    s1: Store,
    s2: Store,
    r1: Seq<crate::store::Article>,
    r2: Seq<crate::store::Article>,
    kind: OrderKind,
    g: Seq<char>,
    page: u8,
    now1: u64,
    now2: u64,
)
    requires
        s0.wf(),
        s1.wf(),
        !cache_fresh(s0.caches@, kind, g, now1),
        listgroup_post(s0, s1, r1, kind, g, page, now1),
        listgroup_post(s1, s2, r2, kind, g, page, now2),
        now1 <= now2 < now1 + GROUP_CACHE_TTL,
        now1 + GROUP_CACHE_TTL <= u64::MAX,
    ensures
        s2 == s1,
        r2 == r1,
{
    let e = inter(global_ranking(s0, kind), group_members(s0.groups@, g));
    let c0 = s0.caches@;
    let c1 = s1.caches@;
    let ci = if has_cache(c0, kind, g) {
        cache_idx(c0, kind, g)
    } else {
        c0.len() as int
    };
    assert(cache_updated(c0, c1, kind, g, e, (now1 + GROUP_CACHE_TTL) as u64));
    assert(has_cache(c1, kind, g)) by {
        assert(c1[ci].order == kind && c1[ci].group@ == g);
    }
    assert(cache_idx(c1, kind, g) == ci) by {
        let c = cache_idx(c1, kind, g);
        assert(0 <= c < c1.len() && c1[c].order == kind && c1[c].group@ == g);
        if c != ci {
            assert(!(c1[c].order == c1[ci].order && c1[c].group@ == c1[ci].group@));
        }
    }
    assert(cache_fresh(c1, kind, g, now2));
    assert(s2 == s1);
    assert(r2 == records_of(s1.articles@, page_slice(cache_of(c1, kind, g).entries@, page)));
    assert(cache_of(c1, kind, g).entries@ == e);
    assert(s1.articles == s0.articles);
    assert(r1 == records_of(s0.articles@, page_slice(e, page)));
}

} // verus!
