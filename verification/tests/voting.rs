use articles::store::Store;
use articles::store::StoreError;
use articles::store::article_vote;
use articles::store::post_article;
use articles::store::get_articles;
use articles::store::add_remove_groups;
use articles::store::get_group_articles;
use articles::ONE_WEEK_IN_SECONDS;
use articles::VOTE_SCORE;

const T0: u64 = 1_700_000_000;

#[test]
fn post_first_article_example() {
    let mut s = Store::new();
    let id = post_article(&mut s, "orhan", "article 1", "http://article1", T0);
    assert_eq!(id, 1);
    let page = get_articles(&s, 1, "score:", T0);
    assert_eq!(page.len(), 1);
    let a = &page[0];
    assert_eq!(a.id, 1);
    assert_eq!(a.title, "article 1");
    assert_eq!(a.link, "http://article1");
    assert_eq!(a.poster, "orhan");
    assert_eq!(a.time, T0);
    assert_eq!(a.votes, 1);
}

#[test]
fn post_seeds_indexes_and_voter_set() {
    let mut s = Store::new();
    let id1 = post_article(&mut s, "u1", "T", "L", T0);
    let id2 = post_article(&mut s, "u2", "T2", "L2", T0 + 5);
    assert!(id2 > id1);
    assert_eq!(s.score_index.zscore(id2), Some(T0 + 5 + VOTE_SCORE));
    assert_eq!(s.time_index.zscore(id2), Some(T0 + 5));
    let vs = s
        .voters
        .iter()
        .find(|v| v.article_id == id2)
        .expect("voter set exists");
    assert_eq!(vs.users.len(), 1);
    assert_eq!(vs.users[0], "u2");
    assert_eq!(vs.expires_at, T0 + 5 + ONE_WEEK_IN_SECONDS);
}

#[test]
fn first_vote_counts_repeat_does_not() {
    let mut s = Store::new();
    let id = post_article(&mut s, "poster", "T", "L", T0);
    let key = format!("article:{}", id);
    let now = T0 + 10;

    let r = article_vote(&mut s, "alice", &key, now);
    assert_eq!(r, Ok(true));
    assert_eq!(s.score_index.zscore(id), Some(T0 + 2 * VOTE_SCORE));
    assert_eq!(s.articles[0].votes, 2);

    let r2 = article_vote(&mut s, "alice", &key, now);
    assert_eq!(r2, Ok(false));
    assert_eq!(s.score_index.zscore(id), Some(T0 + 2 * VOTE_SCORE));
    assert_eq!(s.articles[0].votes, 2);

    let r3 = article_vote(&mut s, "bob", &key, now);
    assert_eq!(r3, Ok(true));
    assert_eq!(s.score_index.zscore(id), Some(T0 + 3 * VOTE_SCORE));
    assert_eq!(s.articles[0].votes, 3);
}

#[test]
fn vote_outside_window_is_rejected() {
    let mut s = Store::new();
    let id = post_article(&mut s, "poster", "T", "L", T0);
    let key = format!("article:{}", id);
    let late = T0 + ONE_WEEK_IN_SECONDS + 1;

    let r = article_vote(&mut s, "carol", &key, late);
    assert_eq!(r, Ok(false));
    assert_eq!(s.score_index.zscore(id), Some(T0 + VOTE_SCORE));
    assert_eq!(s.articles[0].votes, 1);
}

#[test]
fn vote_at_window_edge_still_counts() {
    let mut s = Store::new();
    let id = post_article(&mut s, "poster", "T", "L", T0);
    let key = format!("article:{}", id);
    let edge = T0 + ONE_WEEK_IN_SECONDS;

    let r = article_vote(&mut s, "carol", &key, edge);
    assert_eq!(r, Ok(true));
}

#[test]
fn vote_errors_on_bad_references() {
    let mut s = Store::new();
    post_article(&mut s, "poster", "T", "L", T0);
    assert_eq!(
        article_vote(&mut s, "u", "nonsense", T0),
        Err(StoreError::MalformedKey)
    );
    assert_eq!(
        article_vote(&mut s, "u", "article:", T0),
        Err(StoreError::MalformedKey)
    );
    assert_eq!(
        article_vote(&mut s, "u", "article:07", T0),
        Err(StoreError::MalformedKey)
    );
    assert_eq!(
        article_vote(&mut s, "u", "article:999", T0),
        Err(StoreError::NoSuchArticle)
    );
}

#[test]
fn pages_are_ordered_and_disjoint() {
    let mut s = Store::new();
    for i in 0..60u64 {
        post_article(&mut s, "u", "T", "L", T0 + i);
    }
    let now = T0 + 100;
    let p1 = get_articles(&s, 1, "score:", now);
    let p2 = get_articles(&s, 2, "score:", now);
    let p3 = get_articles(&s, 3, "score:", now);
    assert_eq!(p1.len(), 25);
    assert_eq!(p2.len(), 25);
    assert_eq!(p3.len(), 10);

    // Later posts score higher, so page one starts with the newest.
    assert_eq!(p1[0].id, 60);
    assert_eq!(p2[0].id, 35);
    for w in p1.windows(2) {
        assert!(w[0].time + VOTE_SCORE > w[1].time + VOTE_SCORE);
    }
    let ids1: Vec<u64> = p1.iter().map(|a| a.id).collect();
    let ids2: Vec<u64> = p2.iter().map(|a| a.id).collect();
    for id in &ids2 {
        assert!(!ids1.contains(id));
    }
    let p9 = get_articles(&s, 9, "score:", now);
    assert!(p9.is_empty());
}

#[test]
fn recency_listing_uses_time_index() {
    let mut s = Store::new();
    post_article(&mut s, "u", "old", "L", T0);
    post_article(&mut s, "u", "new", "L", T0 + 50);
    // A vote boosts the old article's score above the new one's.
    article_vote(&mut s, "v", "article:1", T0 + 60).unwrap();
    let by_score = get_articles(&s, 1, "score:", T0 + 60);
    let by_time = get_articles(&s, 1, "time:", T0 + 60);
    assert_eq!(by_score[0].title, "old");
    assert_eq!(by_time[0].title, "new");
}

#[test]
fn unknown_order_key_lists_nothing() {
    let mut s = Store::new();
    post_article(&mut s, "u", "T", "L", T0);
    assert!(get_articles(&s, 1, "votes:", T0).is_empty());
    assert!(get_articles(&s, 1, "score:nogroup", T0).is_empty());
}

#[test]
fn group_membership_controls_group_listing() {
    let mut s = Store::new();
    let id = post_article(&mut s, "u", "T", "L", T0);
    post_article(&mut s, "u", "T2", "L2", T0 + 1);
    assert!(add_remove_groups(&mut s, id, vec!["g1"], vec![]));

    let listed = get_group_articles(&mut s, "g1", 1, "score:", T0 + 2);
    assert_eq!(listed.len(), 1);
    assert_eq!(listed[0].id, id);

    assert!(add_remove_groups(&mut s, id, vec![], vec!["g1"]));
    // The cached ranking still holds the article until it lapses.
    let after_expiry = get_group_articles(&mut s, "g1", 1, "score:", T0 + 100);
    assert!(after_expiry.is_empty());
}

#[test]
fn add_wins_over_remove_in_one_call() {
    let mut s = Store::new();
    let id = post_article(&mut s, "u", "T", "L", T0);
    assert!(add_remove_groups(&mut s, id, vec!["g"], vec!["g"]));
    let listed = get_group_articles(&mut s, "g", 1, "score:", T0 + 1);
    assert_eq!(listed.len(), 1);
    assert_eq!(listed[0].id, id);
}

#[test]
fn group_listing_is_served_from_cache_within_its_lifetime() {
    let mut s = Store::new();
    let id = post_article(&mut s, "u", "T", "L", T0);
    assert!(add_remove_groups(&mut s, id, vec!["g1"], vec![]));

    let first = get_group_articles(&mut s, "g1", 1, "score:", T0 + 2);
    assert_eq!(first.len(), 1);

    // Membership changes do not touch the cache, so a second listing
    // inside the cache's lifetime returns the identical page.
    assert!(add_remove_groups(&mut s, id, vec![], vec!["g1"]));
    let second = get_group_articles(&mut s, "g1", 1, "score:", T0 + 30);
    assert_eq!(second.len(), first.len());
    assert_eq!(second[0].id, first[0].id);
    assert_eq!(second[0].title, first[0].title);

    // Once the cache lapses, the recomputed ranking sees the removal.
    let third = get_group_articles(&mut s, "g1", 1, "score:", T0 + 63);
    assert!(third.is_empty());
}

#[test]
fn group_listing_keeps_global_order() {
    let mut s = Store::new();
    for i in 0..5u64 {
        let id = post_article(&mut s, "u", "T", "L", T0 + i);
        if id % 2 == 1 {
            add_remove_groups(&mut s, id, vec!["odd"], vec![]);
        }
    }
    let listed = get_group_articles(&mut s, "odd", 1, "score:", T0 + 10);
    let ids: Vec<u64> = listed.iter().map(|a| a.id).collect();
    assert_eq!(ids, vec![5, 3, 1]);
}

#[test]
fn removing_from_unknown_group_is_a_no_op() {
    let mut s = Store::new();
    let id = post_article(&mut s, "u", "T", "L", T0);
    assert!(add_remove_groups(&mut s, id, vec![], vec!["ghost"]));
    assert!(get_group_articles(&mut s, "ghost", 1, "score:", T0 + 1).is_empty());
}
