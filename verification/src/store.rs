//! The voting service's data model and its operations.
//!
//! A [`Store`] holds everything the service keeps in its key-value
//! store: the article-id counter, the article records, the global score
//! and recency rankings, the per-article voter sets, the group
//! membership sets and the short-lived per-group ranking caches. The
//! five public operations mirror the service's public contract: vote on
//! an article, post one, list a page of a ranking, change group
//! membership, and list a page of a group's derived ranking.

use vstd::prelude::*;
use crate::keys::spec_parse_article_key;
use crate::keys::parse_article_key;
use crate::zset::ZSet;
use crate::zset::inter;
use crate::zset::zcontains;
use crate::zset::zscore_of;
use crate::ONE_WEEK_IN_SECONDS;
use crate::VOTE_SCORE;
use crate::ARTICLES_PER_PAGE;
use crate::GROUP_CACHE_TTL;
use crate::spec_vote_cutoff;
use crate::vote_cutoff;
use crate::page_bounds;
use crate::spec_page_start;

verus! {

/// An article record: the fields of the hash stored under
/// `article:<id>`, with the identifier alongside.
pub struct Article {
    pub id: u64,
    pub title: String,
    pub link: String,
    pub poster: String,
    pub time: u64,
    pub votes: u64,
}

impl Clone for Article {
    /// Copies the record; the copy equals the source record.
    fn clone(&self) -> (r: Article)
        ensures
            r == *self,
    {
        Article {
            id: self.id,
            title: self.title.clone(),
            link: self.link.clone(),
            poster: self.poster.clone(),
            time: self.time,
            votes: self.votes,
        }
    }
}

/// The set of users who voted on one article, with the moment the set
/// lapses (one week after the article was posted).
pub struct VoterSet {
    pub article_id: u64,
    pub users: Vec<String>,
    pub expires_at: u64,
}

/// One group's membership set: the identifiers of the articles in it.
pub struct Group {
    pub name: String,
    pub members: Vec<u64>,
}

/// Which global ranking an operation works against: by score or by
/// posting time.
#[derive(Clone, Copy, PartialEq, Eq, Structural, Debug)]
pub enum OrderKind {
    Score,
    Time,
}

/// A cached per-group ranking, with the moment it lapses.
pub struct GroupCache {
    pub order: OrderKind,
    pub group: String,
    pub entries: ZSet,
    pub expires_at: u64,
}

/// The whole of the service's durable state.
pub struct Store {
    pub counter: u64,
    pub articles: Vec<Article>,
    pub score_index: ZSet,
    pub time_index: ZSet,
    pub voters: Vec<VoterSet>,
    pub groups: Vec<Group>,
    pub caches: Vec<GroupCache>,
}

/// Why an operation could not be carried out.
#[derive(Clone, Copy, PartialEq, Eq, Structural, Debug)]
pub enum StoreError {
    /// The article reference is not `article:` followed by a canonical
    /// decimal identifier.
    MalformedKey,
    /// No article with the referenced identifier is recorded.
    NoSuchArticle,
}

// ---------------------------------------------------------------------
// Spec-level views of the store's parts.
// ---------------------------------------------------------------------
/// Whether an article with identifier `id` is recorded in `articles`.
pub open spec fn has_article_in(articles: Seq<Article>, id: u64) -> bool {
    exists|i: int| 0 <= i < articles.len() && articles[i].id == id
}

/// The index of the article with identifier `id` in `articles`.
pub open spec fn article_idx(articles: Seq<Article>, id: u64) -> int {
    choose|i: int| 0 <= i < articles.len() && articles[i].id == id
}

/// The recorded article with identifier `id`.
pub open spec fn article_of(articles: Seq<Article>, id: u64) -> Article {
    articles[article_idx(articles, id)]
}

/// Whether a voter set for article `id` is recorded.
pub open spec fn has_voter_set(voters: Seq<VoterSet>, id: u64) -> bool {
    exists|i: int| 0 <= i < voters.len() && voters[i].article_id == id
}

/// The index of article `id`'s voter set.
pub open spec fn voter_idx(voters: Seq<VoterSet>, id: u64) -> int {
    choose|i: int| 0 <= i < voters.len() && voters[i].article_id == id
}

/// The voter set recorded for article `id`.
pub open spec fn voter_set_of(voters: Seq<VoterSet>, id: u64) -> VoterSet {
    voters[voter_idx(voters, id)]
}

/// Whether the user named `user` is in the user list `users`.
pub open spec fn users_contain(users: Seq<String>, user: Seq<char>) -> bool {
    exists|i: int| 0 <= i < users.len() && users[i]@ == user
}

/// Whether the user named `user` is recorded as a voter on article
/// `id`.
pub open spec fn is_voter(voters: Seq<VoterSet>, id: u64, user: Seq<char>) -> bool {
    has_voter_set(voters, id) && users_contain(voter_set_of(voters, id).users@, user)
}

/// Whether a group named `name` is recorded.
pub open spec fn has_group(groups: Seq<Group>, name: Seq<char>) -> bool {
    exists|i: int| 0 <= i < groups.len() && groups[i].name@ == name
}

/// The index of the group named `name`.
pub open spec fn group_idx(groups: Seq<Group>, name: Seq<char>) -> int {
    choose|i: int| 0 <= i < groups.len() && groups[i].name@ == name
}

/// The member identifiers of the group named `name`; a group never
/// recorded is empty.
pub open spec fn group_members(groups: Seq<Group>, name: Seq<char>) -> Seq<u64> {
    if has_group(groups, name) {
        groups[group_idx(groups, name)].members@
    } else {
        Seq::empty()
    }
}

/// Whether article `id` is a member of the group named `name`.
pub open spec fn in_group(groups: Seq<Group>, name: Seq<char>, id: u64) -> bool {
    group_members(groups, name).contains(id)
}

/// Whether a cached ranking is recorded for the ranking `kind` of the
/// group named `g`.
pub open spec fn has_cache(caches: Seq<GroupCache>, kind: OrderKind, g: Seq<char>) -> bool {
    exists|i: int| 0 <= i < caches.len() && caches[i].order == kind && caches[i].group@ == g
}

/// The index of the cached ranking for `kind` and group `g`.
pub open spec fn cache_idx(caches: Seq<GroupCache>, kind: OrderKind, g: Seq<char>) -> int {
    choose|i: int| 0 <= i < caches.len() && caches[i].order == kind && caches[i].group@ == g
}

/// The cached ranking for `kind` and group `g`.
pub open spec fn cache_of(caches: Seq<GroupCache>, kind: OrderKind, g: Seq<char>) -> GroupCache {
    caches[cache_idx(caches, kind, g)]
}

/// Whether a cached ranking for `kind` and group `g` exists and has
/// not lapsed at time `now`.
pub open spec fn cache_fresh(caches: Seq<GroupCache>, kind: OrderKind, g: Seq<char>, now: u64) -> bool {
    has_cache(caches, kind, g) && now < cache_of(caches, kind, g).expires_at
}

impl Store {
    /// The store's invariant, established by [`Store::new`] and kept by
    /// every operation.
    pub open spec fn wf(&self) -> bool {
        // Article identifiers are distinct, and none exceeds the counter.
        &&& forall|i: int, j: int|
            0 <= i < j < self.articles@.len() ==> self.articles@[i].id != self.articles@[j].id
        &&& forall|i: int|
            0 <= i < self.articles@.len() ==> 1 <= (#[trigger] self.articles@[i]).id
                <= self.counter
        // The two global rankings are well formed and rank exactly the
        // recorded articles; the recency ranking carries each article's
        // posting time.
        &&& self.score_index.wf()
        &&& self.time_index.wf()
        &&& forall|k: int|
            0 <= k < self.score_index@.len() ==> has_article_in(
                self.articles@,
                (#[trigger] self.score_index@[k]).0,
            )
        &&& forall|k: int|
            0 <= k < self.time_index@.len() ==> has_article_in(
                self.articles@,
                (#[trigger] self.time_index@[k]).0,
            )
        &&& forall|i: int|
            0 <= i < self.articles@.len() ==> zcontains(
                self.score_index@,
                (#[trigger] self.articles@[i]).id,
            )
        &&& forall|i: int|
            0 <= i < self.articles@.len() ==> zcontains(
                self.time_index@,
                (#[trigger] self.articles@[i]).id,
            ) && zscore_of(self.time_index@, self.articles@[i].id) == self.articles@[i].time
        // Exactly one voter set per recorded article, lapsing one week
        // after the article's posting time.
        &&& forall|i: int, j: int|
            0 <= i < j < self.voters@.len() ==> self.voters@[i].article_id
                != self.voters@[j].article_id
        &&& forall|i: int|
            0 <= i < self.voters@.len() ==> has_article_in(
                self.articles@,
                (#[trigger] self.voters@[i]).article_id,
            ) && self.voters@[i].expires_at == article_of(
                self.articles@,
                self.voters@[i].article_id,
            ).time + ONE_WEEK_IN_SECONDS
        &&& forall|i: int|
            0 <= i < self.articles@.len() ==> has_voter_set(
                self.voters@,
                (#[trigger] self.articles@[i]).id,
            )
        // Group names are distinct and each group's members are listed
        // once.
        &&& forall|i: int, j: int|
            0 <= i < j < self.groups@.len() ==> self.groups@[i].name@ != self.groups@[j].name@
        &&& forall|i: int, a: int, b: int|
            0 <= i < self.groups@.len() && 0 <= a < b < self.groups@[i].members@.len()
                ==> #[trigger] self.groups@[i].members@[a] != #[trigger] self.groups@[i].members@[b]
        // Cached rankings have distinct keys, are well formed, and only
        // rank recorded articles.
        &&& forall|i: int, j: int|
            0 <= i < j < self.caches@.len() ==> !(self.caches@[i].order == self.caches@[j].order
                && self.caches@[i].group@ == self.caches@[j].group@)
        &&& forall|i: int| 0 <= i < self.caches@.len() ==> (#[trigger] self.caches@[i]).entries.wf()
        &&& forall|i: int, k: int|
            0 <= i < self.caches@.len() && 0 <= k < self.caches@[i].entries@.len()
                ==> has_article_in(self.articles@, #[trigger] self.caches@[i].entries@[k].0)
    }

    /// Creates an empty store: no articles have been posted and no
    /// groups exist.
    pub fn new() -> (r: Store)
        ensures
            r.wf(),
            r.counter == 0,
            r.articles@.len() == 0,
            r.score_index@.len() == 0,
            r.time_index@.len() == 0,
            r.voters@.len() == 0,
            r.groups@.len() == 0,
            r.caches@.len() == 0,
    {
        Store {
            counter: 0,
            articles: Vec::new(),
            score_index: ZSet::new(),
            time_index: ZSet::new(),
            voters: Vec::new(),
            groups: Vec::new(),
            caches: Vec::new(),
        }
    }
}

/// Finds the position of article `id` in `articles`.
fn find_article(articles: &Vec<Article>, id: u64) -> (r: Option<usize>)
    ensures
        match r {
            Some(i) => i < articles@.len() && articles@[i as int].id == id,
            None => !has_article_in(articles@, id),
        },
{
    let n = articles.len();
    let mut i: usize = 0;
    while i < n
        invariant
            0 <= i <= n,
            n == articles@.len(),
            forall|k: int| 0 <= k < i ==> articles@[k].id != id,
        decreases n - i,
    {
        if articles[i].id == id {
            return Some(i);
        }
        i = i + 1;
    }
    None
}

/// Finds the position of article `id`'s voter set in `voters`.
fn find_voter_set(voters: &Vec<VoterSet>, id: u64) -> (r: Option<usize>)
    ensures
        match r {
            Some(i) => i < voters@.len() && voters@[i as int].article_id == id,
            None => !has_voter_set(voters@, id),
        },
{
    let n = voters.len();
    let mut i: usize = 0;
    while i < n
        invariant
            0 <= i <= n,
            n == voters@.len(),
            forall|k: int| 0 <= k < i ==> voters@[k].article_id != id,
        decreases n - i,
    {
        if voters[i].article_id == id {
            return Some(i);
        }
        i = i + 1;
    }
    None
}

/// Room for one more vote on the article `article` refers to: its
/// score can take one vote's weight and its counter one more vote.
/// Holds vacuously where the reference is malformed or dangling.
pub open spec fn vote_headroom(s: Store, article: Seq<char>) -> bool {
    match spec_parse_article_key(article) {
        Some(id) => has_article_in(s.articles@, id) ==> (zscore_of(s.score_index@, id) + VOTE_SCORE
            <= u64::MAX && article_of(s.articles@, id).votes < u64::MAX),
        None => true,
    }
}

/// What counting a first vote by `user` on article `id` does to the
/// store: the article's vote counter rises by one, its score by one
/// vote's weight, the user joins its voter set, and nothing else
/// moves.
pub open spec fn vote_applied(pre: Store, post: Store, id: u64, user: Seq<char>) -> bool {
    let ai = article_idx(pre.articles@, id);
    let vi = voter_idx(pre.voters@, id);
    &&& post.counter == pre.counter
    // One more vote on this article's record.
    &&& post.articles@.len() == pre.articles@.len()
    &&& forall|j: int| 0 <= j < pre.articles@.len() && j != ai ==> post.articles@[j] == pre.articles@[j]
    &&& post.articles@[ai].id == pre.articles@[ai].id
    &&& post.articles@[ai].title == pre.articles@[ai].title
    &&& post.articles@[ai].link == pre.articles@[ai].link
    &&& post.articles@[ai].poster == pre.articles@[ai].poster
    &&& post.articles@[ai].time == pre.articles@[ai].time
    &&& post.articles@[ai].votes == pre.articles@[ai].votes + 1
    // One vote's weight more in the score ranking, which otherwise
    // keeps its entries.
    &&& zcontains(post.score_index@, id)
    &&& zscore_of(post.score_index@, id) == zscore_of(pre.score_index@, id) + VOTE_SCORE
    &&& forall|id2: u64|
        id2 != id ==> (#[trigger] zcontains(post.score_index@, id2) == zcontains(
            pre.score_index@,
            id2,
        ) && (zcontains(pre.score_index@, id2) ==> zscore_of(post.score_index@, id2) == zscore_of(
            pre.score_index@,
            id2,
        )))
    &&& post.time_index == pre.time_index
    // The user joins this article's voter set, which otherwise keeps
    // its users.
    &&& post.voters@.len() == pre.voters@.len()
    &&& forall|j: int| 0 <= j < pre.voters@.len() && j != vi ==> post.voters@[j] == pre.voters@[j]
    &&& post.voters@[vi].article_id == pre.voters@[vi].article_id
    &&& post.voters@[vi].expires_at == pre.voters@[vi].expires_at
    &&& post.voters@[vi].users@.len() == pre.voters@[vi].users@.len() + 1
    &&& post.voters@[vi].users@.drop_last() == pre.voters@[vi].users@
    &&& post.voters@[vi].users@.last()@ == user
    &&& is_voter(post.voters@, id, user)
    &&& post.groups == pre.groups
    &&& post.caches == pre.caches
}

/// What a vote by `user` on the article referred to by `article` at
/// time `now` returns: an error for a malformed or dangling reference,
/// `false` for an article outside the voting window or a user who
/// already voted on it, and `true` for a counted first vote.
pub open spec fn vote_outcome(s: Store, user: Seq<char>, article: Seq<char>, now: u64) -> Result<
    bool,
    StoreError,
> {
    match spec_parse_article_key(article) {
        None => Err(StoreError::MalformedKey),
        Some(id) => {
            if !zcontains(s.time_index@, id) {
                Err(StoreError::NoSuchArticle)
            } else if zscore_of(s.time_index@, id) < spec_vote_cutoff(now) {
                Ok(false)
            } else if is_voter(s.voters@, id, user) {
                Ok(false)
            } else {
                Ok(true)
            }
        },
    }
}

/// Records a vote by `user` on the article referred to by `article`
/// (a key `article:<id>`) at time `now`. A vote on an article posted
/// more than one week before `now` is rejected; a repeat vote by the
/// same user changes nothing; a first vote inside the window adds one
/// vote's weight to the article's score and one to its counter.
pub fn article_vote(store: &mut Store, user: &str, article: &str, now: u64) -> (r: Result<
    bool,
    StoreError,
>)
    requires
        old(store).wf(),
        vote_headroom(*old(store), article@),
    ensures
        final(store).wf(),
        r == vote_outcome(*old(store), user@, article@, now),
        match spec_parse_article_key(article@) {
            Some(id) => {
                if r == Result::<bool, StoreError>::Ok(true) {
                    vote_applied(*old(store), *final(store), id, user@)
                } else {
                    *final(store) == *old(store)
                }
            },
            None => *final(store) == *old(store),
        },
{
    let id = match parse_article_key(article) {
        Some(id) => id,
        None => {
            return Err(StoreError::MalformedKey);
        },
    };
    let t = match store.time_index.zscore(id) {
        Some(t) => t,
        None => {
            return Err(StoreError::NoSuchArticle);
        },
    };
    let cutoff = vote_cutoff(now);
    if t < cutoff {
        return Ok(false);
    }
    proof {
        assert(has_article_in(store.articles@, id)) by {
            let k = crate::zset::zindex_of(store.time_index@, id);
            assert(has_article_in(store.articles@, store.time_index@[k].0));
        }
        assert(has_voter_set(store.voters@, id)) by {
            let i = article_idx(store.articles@, id);
            assert(has_voter_set(store.voters@, store.articles@[i].id));
        }
    }
    let vi = match find_voter_set(&store.voters, id) {
        Some(vi) => vi,
        None => {
            proof {
                assert(false);
            }
            return Err(StoreError::NoSuchArticle);
        },
    };
    proof {
        assert(vi as int == voter_idx(store.voters@, id)) by {
            let v = voter_idx(store.voters@, id);
            assert(0 <= v < store.voters@.len() && store.voters@[v].article_id == id);
            if v != vi as int {
                assert(store.voters@[v].article_id != store.voters@[vi as int].article_id);
            }
        }
    }
    let already = user_in(&store.voters[vi].users, user);
    if already {
        return Ok(false);
    }
    store.voters[vi].users.push(user.to_owned());
    proof {
        assert(store.voters@[vi as int].users@.drop_last() =~= old(store).voters@[vi as int].users@);
    }
    proof {
        assert(zcontains(store.score_index@, id)) by {
            let i = article_idx(store.articles@, id);
            assert(zcontains(store.score_index@, store.articles@[i].id));
        }
    }
    store.score_index.zincr(id, VOTE_SCORE);
    let ai = match find_article(&store.articles, id) {
        Some(ai) => ai,
        None => {
            proof {
                assert(false);
            }
            return Err(StoreError::NoSuchArticle);
        },
    };
    proof {
        assert(ai as int == article_idx(store.articles@, id)) by {
            let a = article_idx(store.articles@, id);
            assert(0 <= a < store.articles@.len() && store.articles@[a].id == id);
            if a != ai as int {
                assert(store.articles@[a].id != store.articles@[ai as int].id);
            }
        }
    }
    let v = store.articles[ai].votes;
    store.articles[ai].votes = v + 1;
    proof {
        let pre = old(store);
        let post = store;
        let a0 = pre.articles@;
        let a1 = post.articles@;
        let aidx = article_idx(a0, id);
        assert(a1.len() == a0.len());
        assert(forall|j: int| 0 <= j < a0.len() && j != aidx ==> a1[j] == a0[j]);
        assert(a1[aidx].id == a0[aidx].id);
        assert(a1[aidx].time == a0[aidx].time);
        assert(a1[aidx].votes == a0[aidx].votes + 1);
        // Identifier lookups over the articles are unchanged.
        assert forall|x: u64| has_article_in(a1, x) == has_article_in(a0, x) && (has_article_in(
            a0,
            x,
        ) ==> article_idx(a1, x) == article_idx(a0, x) && article_of(a1, x).id == article_of(
            a0,
            x,
        ).id && article_of(a1, x).time == article_of(a0, x).time) by {
            assert(forall|i: int| 0 <= i < a1.len() ==> (#[trigger] a1[i]).id == a0[i].id);
            if has_article_in(a0, x) {
                let i = article_idx(a0, x);
                assert(a1[i].id == x);
                assert(has_article_in(a1, x));
                let j = article_idx(a1, x);
                if j != i {
                    assert(a0[i].id == a0[j].id);
                }
            }
            if has_article_in(a1, x) {
                let i = article_idx(a1, x);
                assert(a0[i].id == x);
            }
        }
        assert(vote_applied(*pre, *post, id, user@)) by {
            assert(is_voter(post.voters@, id, user@)) by {
                let vv = voter_idx(post.voters@, id);
                assert(post.voters@[vi as int].article_id == id);
                if vv != vi as int {
                    assert(post.voters@[vv].article_id != post.voters@[vi as int].article_id);
                }
                assert(post.voters@[vi as int].users@.last()@ == user@);
            }
        }
        assert(post.wf()) by {
            assert forall|i: int| 0 <= i < post.voters@.len() implies has_article_in(
                a1,
                (#[trigger] post.voters@[i]).article_id,
            ) && post.voters@[i].expires_at == article_of(
                a1,
                post.voters@[i].article_id,
            ).time + ONE_WEEK_IN_SECONDS by {
                assert(post.voters@[i].article_id == pre.voters@[i].article_id);
                assert(post.voters@[i].expires_at == pre.voters@[i].expires_at);
                assert(has_article_in(a0, pre.voters@[i].article_id));
            }
            assert forall|k: int| 0 <= k < post.score_index@.len() implies has_article_in(
                a1,
                (#[trigger] post.score_index@[k]).0,
            ) by {
                let e = post.score_index@[k];
                assert(post.score_index@.contains(e));
                if e.0 != id {
                    assert(pre.score_index@.contains(e));
                    let k0 = choose|x: int|
                        0 <= x < pre.score_index@.len() && pre.score_index@[x] == e;
                    assert(has_article_in(a0, e.0));
                }
            }
            assert forall|k: int| 0 <= k < post.time_index@.len() implies has_article_in(
                a1,
                (#[trigger] post.time_index@[k]).0,
            ) by {
                assert(has_article_in(a0, post.time_index@[k].0));
            }
            assert forall|i: int| 0 <= i < a1.len() implies zcontains(
                post.score_index@,
                (#[trigger] a1[i]).id,
            ) by {
                assert(a1[i].id == a0[i].id);
                assert(zcontains(pre.score_index@, a0[i].id));
            }
            assert forall|i: int| 0 <= i < a1.len() implies zcontains(
                post.time_index@,
                (#[trigger] a1[i]).id,
            ) && zscore_of(post.time_index@, a1[i].id) == a1[i].time by {
                assert(a1[i].id == a0[i].id && a1[i].time == a0[i].time);
                assert(zcontains(pre.time_index@, a0[i].id));
                assert(zscore_of(pre.time_index@, a0[i].id) == a0[i].time);
            }
            assert forall|i: int| 0 <= i < a1.len() implies has_voter_set(
                post.voters@,
                (#[trigger] a1[i]).id,
            ) by {
                assert(has_voter_set(pre.voters@, a0[i].id));
                let v0 = voter_idx(pre.voters@, a0[i].id);
                assert(post.voters@[v0].article_id == pre.voters@[v0].article_id);
            }
            assert forall|i: int, k: int|
                0 <= i < post.caches@.len() && 0 <= k
                < post.caches@[i].entries@.len() implies has_article_in(
                a1,
                #[trigger] post.caches@[i].entries@[k].0,
            ) by {
                assert(has_article_in(a0, pre.caches@[i].entries@[k].0));
            }
        }
    }
    Ok(true)
}

/// Decides whether the user named `user` is in the user list `users`.
fn user_in(users: &Vec<String>, user: &str) -> (r: bool)
    ensures
        r == users_contain(users@, user@),
{
    let n = users.len();
    let mut i: usize = 0;
    while i < n
        invariant
            0 <= i <= n,
            n == users@.len(),
            forall|k: int| 0 <= k < i ==> users@[k]@ != user@,
        decreases n - i,
    {
        let ui = &users[i];
        if str_eq(ui.as_str(), user) {
            proof {
                assert(users_contain(users@, user@));
            }
            return true;
        }
        i = i + 1;
    }
    false
}

/// Decides whether two strings spell the same characters.
pub fn str_eq(a: &str, b: &str) -> (r: bool)
    ensures
        r == (a@ == b@),
{
    let sa = a.to_owned();
    let sb = b.to_owned();
    sa == sb
}

/// Posts a new article by `user` with the given title and link at time
/// `now`: allocates the next identifier, seeds the voter set with the
/// poster, records the article hash with one vote, and enters the
/// article into both global rankings, pre-weighted with one vote's
/// score.
pub fn post_article(store: &mut Store, user: &str, title: &str, link: &str, now: u64) -> (id: u64)
    requires
        old(store).wf(),
        old(store).counter < u64::MAX,
        now + ONE_WEEK_IN_SECONDS <= u64::MAX,
    ensures
        final(store).wf(),
        // The new identifier is strictly above every previously issued
        // one.
        id == old(store).counter + 1,
        final(store).counter == id,
        forall|i: int|
            0 <= i < old(store).articles@.len() ==> (#[trigger] old(store).articles@[i]).id < id,
        // The new record carries the given fields, a time of `now`, and
        // one vote; older records are untouched.
        final(store).articles@.len() == old(store).articles@.len() + 1,
        final(store).articles@.drop_last() == old(store).articles@,
        final(store).articles@.last().id == id,
        final(store).articles@.last().title@ == title@,
        final(store).articles@.last().link@ == link@,
        final(store).articles@.last().poster@ == user@,
        final(store).articles@.last().time == now,
        final(store).articles@.last().votes == 1,
        // The score ranking gains the article at `now` plus one vote's
        // weight; the recency ranking gains it at `now`; neither loses
        // or changes anything else.
        zcontains(final(store).score_index@, id),
        zscore_of(final(store).score_index@, id) == now + VOTE_SCORE,
        forall|id2: u64|
            id2 != id ==> (#[trigger] zcontains(final(store).score_index@, id2) == zcontains(
                old(store).score_index@,
                id2,
            ) && (zcontains(old(store).score_index@, id2) ==> zscore_of(
                final(store).score_index@,
                id2,
            ) == zscore_of(old(store).score_index@, id2))),
        zcontains(final(store).time_index@, id),
        zscore_of(final(store).time_index@, id) == now,
        forall|id2: u64|
            id2 != id ==> (#[trigger] zcontains(final(store).time_index@, id2) == zcontains(
                old(store).time_index@,
                id2,
            ) && (zcontains(old(store).time_index@, id2) ==> zscore_of(
                final(store).time_index@,
                id2,
            ) == zscore_of(old(store).time_index@, id2))),
        // The voter set of the new article holds exactly the poster and
        // lapses one week after `now`; older voter sets are untouched.
        final(store).voters@.len() == old(store).voters@.len() + 1,
        final(store).voters@.drop_last() == old(store).voters@,
        final(store).voters@.last().article_id == id,
        final(store).voters@.last().users@.len() == 1,
        final(store).voters@.last().users@[0]@ == user@,
        final(store).voters@.last().expires_at == now + ONE_WEEK_IN_SECONDS,
        // Groups and cached rankings are untouched.
        final(store).groups == old(store).groups,
        final(store).caches == old(store).caches,
{
    let id = store.counter + 1;
    store.counter = id;
    proof {
        assert(!has_article_in(store.articles@, id)) by {
            if has_article_in(store.articles@, id) {
                let i = article_idx(store.articles@, id);
                assert(old(store).articles@[i].id <= old(store).counter);
            }
        }
        assert(!zcontains(store.score_index@, id)) by {
            if zcontains(store.score_index@, id) {
                let k = crate::zset::zindex_of(store.score_index@, id);
                assert(has_article_in(store.articles@, store.score_index@[k].0));
            }
        }
        assert(!zcontains(store.time_index@, id)) by {
            if zcontains(store.time_index@, id) {
                let k = crate::zset::zindex_of(store.time_index@, id);
                assert(has_article_in(store.articles@, store.time_index@[k].0));
            }
        }
        assert(!has_voter_set(store.voters@, id)) by {
            if has_voter_set(store.voters@, id) {
                let i = voter_idx(store.voters@, id);
                assert(has_article_in(store.articles@, store.voters@[i].article_id));
            }
        }
    }
    let mut users: Vec<String> = Vec::new();
    users.push(user.to_owned());
    store.voters.push(
        VoterSet { article_id: id, users, expires_at: now + ONE_WEEK_IN_SECONDS },
    );
    store.articles.push(
        Article {
            id,
            title: title.to_owned(),
            link: link.to_owned(),
            poster: user.to_owned(),
            time: now,
            votes: 1,
        },
    );
    store.score_index.zadd(id, now + VOTE_SCORE);
    store.time_index.zadd(id, now);
    proof {
        let pre = old(store);
        let post = store;
        let a0 = pre.articles@;
        let a1 = post.articles@;
        assert(a1.drop_last() =~= a0);
        assert(post.voters@.drop_last() =~= pre.voters@);
        // Each old article keeps its place, so spec lookups over the new
        // sequences find what they found before.
        assert forall|x: u64| has_article_in(a0, x) implies has_article_in(a1, x) && article_of(
            a1,
            x,
        ) == article_of(a0, x) by {
            let i = article_idx(a0, x);
            assert(a1[i] == a0[i]);
            assert(has_article_in(a1, x));
            let j = article_idx(a1, x);
            if j != i {
                if j < a0.len() && i < a0.len() {
                    assert(a0[i].id == a0[j].id);
                }
            }
        }
        assert(has_article_in(a1, id)) by {
            assert(a1[a1.len() - 1].id == id);
        }
        assert(article_of(a1, id) == a1.last()) by {
            let j = article_idx(a1, id);
            if j != a1.len() - 1 {
                assert(a1[j].id == a1[a1.len() - 1].id);
            }
        }
        assert(post.wf()) by {
            assert(forall|i: int|
                0 <= i < a1.len() ==> 1 <= (#[trigger] a1[i]).id <= post.counter);
            assert forall|k: int| 0 <= k < post.score_index@.len() implies has_article_in(
                a1,
                (#[trigger] post.score_index@[k]).0,
            ) by {
                let e = post.score_index@[k];
                assert(post.score_index@.contains(e));
                if e.0 != id {
                    assert(pre.score_index@.contains(e));
                    let k0 = choose|x: int|
                        0 <= x < pre.score_index@.len() && pre.score_index@[x] == e;
                    assert(has_article_in(a0, e.0));
                }
            }
            assert forall|k: int| 0 <= k < post.time_index@.len() implies has_article_in(
                a1,
                (#[trigger] post.time_index@[k]).0,
            ) by {
                let e = post.time_index@[k];
                assert(post.time_index@.contains(e));
                if e.0 != id {
                    assert(pre.time_index@.contains(e));
                    let k0 = choose|x: int|
                        0 <= x < pre.time_index@.len() && pre.time_index@[x] == e;
                    assert(has_article_in(a0, e.0));
                }
            }
            assert forall|i: int| 0 <= i < a1.len() implies zcontains(
                post.score_index@,
                (#[trigger] a1[i]).id,
            ) by {
                if i < a0.len() {
                    assert(zcontains(pre.score_index@, a0[i].id));
                }
            }
            assert forall|i: int| 0 <= i < a1.len() implies zcontains(
                post.time_index@,
                (#[trigger] a1[i]).id,
            ) && zscore_of(post.time_index@, a1[i].id) == a1[i].time by {
                if i < a0.len() {
                    assert(zcontains(pre.time_index@, a0[i].id));
                    assert(zscore_of(pre.time_index@, a0[i].id) == a0[i].time);
                    assert(a1[i].id != id);
                } else {
                    assert(a1[i].id == id);
                }
            }
            assert forall|i: int| 0 <= i < post.voters@.len() implies has_article_in(
                a1,
                (#[trigger] post.voters@[i]).article_id,
            ) && post.voters@[i].expires_at == article_of(
                a1,
                post.voters@[i].article_id,
            ).time + ONE_WEEK_IN_SECONDS by {
                if i < pre.voters@.len() {
                    assert(post.voters@[i] == pre.voters@[i]);
                    assert(has_article_in(a0, pre.voters@[i].article_id));
                } else {
                    assert(post.voters@[i].article_id == id);
                }
            }
            assert forall|i: int| 0 <= i < a1.len() implies has_voter_set(
                post.voters@,
                (#[trigger] a1[i]).id,
            ) by {
                if i < a0.len() {
                    assert(has_voter_set(pre.voters@, a0[i].id));
                    let v = voter_idx(pre.voters@, a0[i].id);
                    assert(post.voters@[v] == pre.voters@[v]);
                } else {
                    assert(post.voters@[post.voters@.len() - 1].article_id == id);
                }
            }
            assert forall|i: int, k: int|
                0 <= i < post.caches@.len() && 0 <= k
                < post.caches@[i].entries@.len() implies has_article_in(
                a1,
                #[trigger] post.caches@[i].entries@[k].0,
            ) by {
                assert(has_article_in(a0, pre.caches@[i].entries@[k].0));
            }
        }
    }
    id
}

// ---------------------------------------------------------------------
// Group membership.
// ---------------------------------------------------------------------
/// Whether one of the names in `names` spells `g`.
pub open spec fn contains_name(names: Seq<Seq<char>>, g: Seq<char>) -> bool {
    exists|i: int| 0 <= i < names.len() && names[i] == g
}

/// Whether the group sequences `g0` and `g1` agree except that group
/// `gi`'s members went from `m0` to `m1`.
spec fn groups_updated(g0: Seq<Group>, g1: Seq<Group>, gi: int) -> bool {
    &&& 0 <= gi < g0.len()
    &&& g1.len() == g0.len()
    &&& forall|j: int| 0 <= j < g0.len() && j != gi ==> g1[j] == g0[j]
    &&& g1[gi].name == g0[gi].name
}

/// Names stay unique, lookups of other groups stay put, and the
/// changed group is found at its place, when one group's members
/// change.
proof fn lemma_group_frame(g0: Seq<Group>, g1: Seq<Group>, gi: int)
    requires
        forall|i: int, j: int| 0 <= i < j < g0.len() ==> g0[i].name@ != g0[j].name@,
        groups_updated(g0, g1, gi),
    ensures
        forall|i: int, j: int| 0 <= i < j < g1.len() ==> g1[i].name@ != g1[j].name@,
        forall|g: Seq<char>|
            g != g0[gi].name@ ==> (#[trigger] has_group(g1, g)) == has_group(g0, g) && group_members(
                g1,
                g,
            ) == group_members(g0, g),
        has_group(g1, g0[gi].name@),
        group_idx(g1, g0[gi].name@) == gi,
        group_members(g1, g0[gi].name@) == g1[gi].members@,
{
    assert(forall|j: int| 0 <= j < g1.len() ==> #[trigger] g1[j].name@ == g0[j].name@);
    assert(g1[gi].name@ == g0[gi].name@);
    assert(has_group(g1, g0[gi].name@));
    assert(group_idx(g1, g0[gi].name@) == gi) by {
        let k = group_idx(g1, g0[gi].name@);
        if k != gi {
            assert(g1[k].name@ != g1[gi].name@);
        }
    }
    assert forall|g: Seq<char>| g != g0[gi].name@ implies (#[trigger] has_group(g1, g))
        == has_group(g0, g) && group_members(g1, g) == group_members(g0, g) by {
        if has_group(g0, g) {
            let k = group_idx(g0, g);
            assert(g1[k].name@ == g);
            assert(has_group(g1, g));
        }
        if has_group(g1, g) {
            let k = group_idx(g1, g);
            assert(g0[k].name@ == g);
            assert(has_group(g0, g));
            let k0 = group_idx(g0, g);
            assert(k0 == k) by {
                if k0 != k {
                    assert(g0[k0].name@ != g0[k].name@);
                }
            }
            assert(k != gi);
            assert(group_members(g1, g) == g1[k].members@);
        }
    }
}

/// Takes article `id` out of the group named `name`'s members, as the
/// store's set-remove does: a group never recorded, or one the article
/// is not in, is left as it is.
fn remove_member(groups: &mut Vec<Group>, name: &str, id: u64)
    requires
        forall|i: int, j: int|
            0 <= i < j < old(groups)@.len() ==> old(groups)@[i].name@ != old(groups)@[j].name@,
        forall|i: int, a: int, b: int|
            0 <= i < old(groups)@.len() && 0 <= a < b < old(groups)@[i].members@.len()
                ==> #[trigger] old(groups)@[i].members@[a] != #[trigger] old(groups)@[i].members@[b],
    ensures
        forall|i: int, j: int|
            0 <= i < j < final(groups)@.len() ==> final(groups)@[i].name@
                != final(groups)@[j].name@,
        forall|i: int, a: int, b: int|
            0 <= i < final(groups)@.len() && 0 <= a < b < final(groups)@[i].members@.len()
                ==> #[trigger] final(groups)@[i].members@[a]
                != #[trigger] final(groups)@[i].members@[b],
        forall|g: Seq<char>|
            #[trigger] has_group(final(groups)@, g) == has_group(old(groups)@, g),
        forall|g: Seq<char>, x: u64|
            #[trigger] group_members(final(groups)@, g).contains(x) == (group_members(
                old(groups)@,
                g,
            ).contains(x) && !(g == name@ && x == id)),
{
    let gi = match find_group(groups, name) {
        Some(gi) => gi,
        None => {
            proof {
                assert forall|g: Seq<char>, x: u64| #[trigger]
                    group_members(groups@, g).contains(x) == (group_members(
                        groups@,
                        g,
                    ).contains(x) && !(g == name@ && x == id)) by {
                    if g == name@ {
                        assert(!has_group(groups@, g));
                    }
                }
            }
            return ;
        },
    };
    proof {
        assert(gi as int == group_idx(groups@, name@)) by {
            let k = group_idx(groups@, name@);
            assert(0 <= k < groups@.len() && groups@[k].name@ == name@);
            if k != gi as int {
                assert(groups@[k].name@ != groups@[gi as int].name@);
            }
        }
    }
    let ghost g0 = groups@;
    let found = remove_id(&mut groups[gi].members, id);
    proof {
        let g1 = groups@;
        lemma_group_frame(g0, g1, gi as int);
        assert forall|g: Seq<char>, x: u64| #[trigger]
            group_members(g1, g).contains(x) == (group_members(g0, g).contains(x) && !(g == name@
                && x == id)) by {
            if g == name@ {
                assert(group_members(g1, g) == g1[gi as int].members@);
                assert(group_members(g0, g) == g0[gi as int].members@) by {
                    assert(group_idx(g0, g) == gi as int);
                }
            }
        }
    }
}

/// Puts article `id` into the group named `name`'s members, creating
/// the group on first use, as the store's set-add does.
fn add_member(groups: &mut Vec<Group>, name: &str, id: u64)
    requires
        forall|i: int, j: int|
            0 <= i < j < old(groups)@.len() ==> old(groups)@[i].name@ != old(groups)@[j].name@,
        forall|i: int, a: int, b: int|
            0 <= i < old(groups)@.len() && 0 <= a < b < old(groups)@[i].members@.len()
                ==> #[trigger] old(groups)@[i].members@[a] != #[trigger] old(groups)@[i].members@[b],
    ensures
        forall|i: int, j: int|
            0 <= i < j < final(groups)@.len() ==> final(groups)@[i].name@
                != final(groups)@[j].name@,
        forall|i: int, a: int, b: int|
            0 <= i < final(groups)@.len() && 0 <= a < b < final(groups)@[i].members@.len()
                ==> #[trigger] final(groups)@[i].members@[a]
                != #[trigger] final(groups)@[i].members@[b],
        forall|g: Seq<char>|
            #[trigger] has_group(final(groups)@, g) == (has_group(old(groups)@, g) || g == name@),
        forall|g: Seq<char>, x: u64|
            #[trigger] group_members(final(groups)@, g).contains(x) == (group_members(
                old(groups)@,
                g,
            ).contains(x) || (g == name@ && x == id)),
{
    let ghost g0 = groups@;
    match find_group(groups, name) {
        Some(gi) => {
            proof {
                assert(gi as int == group_idx(groups@, name@)) by {
                    let k = group_idx(groups@, name@);
                    assert(0 <= k < groups@.len() && groups@[k].name@ == name@);
                    if k != gi as int {
                        assert(groups@[k].name@ != groups@[gi as int].name@);
                    }
                }
            }
            insert_id(&mut groups[gi].members, id);
            proof {
                let g1 = groups@;
                lemma_group_frame(g0, g1, gi as int);
                assert forall|g: Seq<char>| #[trigger]
                    has_group(g1, g) == (has_group(g0, g) || g == name@) by {}
                assert forall|g: Seq<char>, x: u64| #[trigger]
                    group_members(g1, g).contains(x) == (group_members(g0, g).contains(x) || (g
                        == name@ && x == id)) by {
                    if g == name@ {
                        assert(group_members(g1, g) == g1[gi as int].members@);
                        assert(group_members(g0, g) == g0[gi as int].members@) by {
                            assert(group_idx(g0, g) == gi as int);
                        }
                    }
                }
            }
        },
        None => {
            let mut members: Vec<u64> = Vec::new();
            members.push(id);
            groups.push(Group { name: name.to_owned(), members });
            proof {
                let g1 = groups@;
                let n = g0.len() as int;
                assert(forall|j: int| 0 <= j < n ==> g1[j] == g0[j]);
                assert(g1[n].name@ == name@ && g1[n].members@ =~= seq![id]);
                assert forall|g: Seq<char>| #[trigger]
                    has_group(g1, g) == (has_group(g0, g) || g == name@) by {
                    if has_group(g0, g) {
                        let k = group_idx(g0, g);
                        assert(g1[k].name@ == g);
                    }
                    if has_group(g1, g) && g != name@ {
                        let k = group_idx(g1, g);
                        assert(k < n);
                        assert(g0[k].name@ == g);
                    }
                    if g == name@ {
                        assert(g1[n].name@ == g);
                    }
                }
                assert forall|g: Seq<char>, x: u64| #[trigger]
                    group_members(g1, g).contains(x) == (group_members(g0, g).contains(x) || (g
                        == name@ && x == id)) by {
                    if g == name@ {
                        assert(!has_group(g0, g));
                        assert(group_idx(g1, g) == n) by {
                            let k = group_idx(g1, g);
                            assert(g1[k].name@ == g);
                            if k != n {
                                assert(g0[k].name@ == g);
                                assert(has_group(g0, g));
                            }
                        }
                        assert(group_members(g1, g) == g1[n].members@);
                        assert(g1[n].members@.contains(x) == (x == id)) by {
                            if x == id {
                                assert(g1[n].members@[0] == id);
                            }
                        }
                    } else {
                        if has_group(g0, g) {
                            let k = group_idx(g0, g);
                            assert(g1[k].name@ == g);
                            assert(group_idx(g1, g) == k) by {
                                let k1 = group_idx(g1, g);
                                assert(g1[k1].name@ == g);
                                if k1 != k {
                                    if k1 < n {
                                        assert(g0[k1].name@ != g0[k].name@);
                                    } else {
                                        assert(g1[k1].name@ == name@);
                                    }
                                }
                            }
                            assert(group_members(g1, g) == group_members(g0, g));
                        } else {
                            assert(!has_group(g1, g));
                        }
                    }
                }
            }
        },
    }
}

/// Finds the position of the group named `name`.
fn find_group(groups: &Vec<Group>, name: &str) -> (r: Option<usize>)
    ensures
        match r {
            Some(i) => i < groups@.len() && groups@[i as int].name@ == name@,
            None => !has_group(groups@, name@),
        },
{
    let n = groups.len();
    let mut i: usize = 0;
    while i < n
        invariant
            0 <= i <= n,
            n == groups@.len(),
            forall|k: int| 0 <= k < i ==> groups@[k].name@ != name@,
        decreases n - i,
    {
        if str_eq(groups[i].name.as_str(), name) {
            return Some(i);
        }
        i = i + 1;
    }
    None
}

/// Takes `id` out of the member list where present; reports whether it
/// was.
fn remove_id(members: &mut Vec<u64>, id: u64) -> (found: bool)
    requires
        forall|a: int, b: int|
            0 <= a < b < old(members)@.len() ==> old(members)@[a] != old(members)@[b],
    ensures
        forall|a: int, b: int|
            0 <= a < b < final(members)@.len() ==> final(members)@[a] != final(members)@[b],
        found == old(members)@.contains(id),
        forall|x: u64|
            #[trigger] final(members)@.contains(x) == (old(members)@.contains(x) && x != id),
{
    let n = members.len();
    let mut i: usize = 0;
    while i < n
        invariant
            0 <= i <= n,
            n == members@.len(),
            *members == *old(members),
            forall|a: int, b: int| 0 <= a < b < members@.len() ==> members@[a] != members@[b],
            forall|k: int| 0 <= k < i ==> members@[k] != id,
        decreases n - i,
    {
        if members[i] == id {
            let ghost m0 = members@;
            members.remove(i);
            proof {
                let m1 = members@;
                m0.remove_ensures(i as int);
                assert(m1.len() == m0.len() - 1);
                assert(forall|a: int| 0 <= a < i ==> #[trigger] m1[a] == m0[a]);
                assert(forall|a: int| i <= a < m1.len() ==> #[trigger] m1[a] == m0[a + 1]);
                assert(m0.contains(id)) by {
                    assert(m0[i as int] == id);
                }
                assert forall|a: int, b: int| 0 <= a < b < m1.len() implies m1[a] != m1[b] by {
                    let a0 = if a < i as int {
                        a
                    } else {
                        a + 1
                    };
                    let b0 = if b < i as int {
                        b
                    } else {
                        b + 1
                    };
                    assert(m1[a] == m0[a0] && m1[b] == m0[b0]);
                    assert(0 <= a0 < b0 < m0.len());
                }
                assert forall|x: u64| #[trigger]
                    m1.contains(x) == (m0.contains(x) && x != id) by {
                    if m1.contains(x) {
                        let k = choose|k: int| 0 <= k < m1.len() && m1[k] == x;
                        let k0 = if k < i as int {
                            k
                        } else {
                            k + 1
                        };
                        assert(m0[k0] == x);
                        assert(k0 != i);
                        if x == id {
                            assert(m0[k0] == m0[i as int]);
                        }
                    }
                    if m0.contains(x) && x != id {
                        let k0 = choose|k: int| 0 <= k < m0.len() && m0[k] == x;
                        assert(k0 != i);
                        if k0 < i as int {
                            assert(m1[k0] == x);
                        } else {
                            assert(m1[k0 - 1] == x);
                        }
                    }
                }
            }
            return true;
        }
        i = i + 1;
    }
    proof {
        assert(!members@.contains(id)) by {
            if members@.contains(id) {
                let k = choose|k: int| 0 <= k < members@.len() && members@[k] == id;
                assert(members@[k] != id);
            }
        }
    }
    false
}

/// Puts `id` into the member list where not yet present.
fn insert_id(members: &mut Vec<u64>, id: u64)
    requires
        forall|a: int, b: int|
            0 <= a < b < old(members)@.len() ==> old(members)@[a] != old(members)@[b],
    ensures
        forall|a: int, b: int|
            0 <= a < b < final(members)@.len() ==> final(members)@[a] != final(members)@[b],
        forall|x: u64|
            #[trigger] final(members)@.contains(x) == (old(members)@.contains(x) || x == id),
{
    if !crate::zset::contains_id(members, id) {
        members.push(id);
        proof {
            let m0 = old(members)@;
            let m1 = members@;
            assert forall|x: u64| #[trigger] m1.contains(x) == (m0.contains(x) || x == id) by {
                if m1.contains(x) {
                    let k = choose|k: int| 0 <= k < m1.len() && m1[k] == x;
                    if k < m0.len() {
                        assert(m0[k] == x);
                    }
                }
                if m0.contains(x) {
                    let k = choose|k: int| 0 <= k < m0.len() && m0[k] == x;
                    assert(m1[k] == x);
                }
                if x == id {
                    assert(m1[m1.len() - 1] == x);
                }
            }
        }
    } else {
        proof {
            assert(members@.contains(id));
        }
    }
}

/// Changes which groups an article is in: takes it out of each group
/// in `to_remove`, then puts it into each group in `to_add` (a group
/// named in both ends up holding the article), and reports success.
/// Groups are created on first use; removal from an unknown group does
/// nothing.
pub fn add_remove_groups(
    store: &mut Store,
    article_id: u64,
    to_add: Vec<&str>,
    to_remove: Vec<&str>,
) -> (r: bool)
    requires
        old(store).wf(),
    ensures
        final(store).wf(),
        r == true,
        final(store).counter == old(store).counter,
        final(store).articles == old(store).articles,
        final(store).score_index == old(store).score_index,
        final(store).time_index == old(store).time_index,
        final(store).voters == old(store).voters,
        final(store).caches == old(store).caches,
        // Where the article ends up: every group it was added to, and
        // every group it was in and not removed from.
        forall|g: Seq<char>|
            #[trigger] in_group(final(store).groups@, g, article_id) == (contains_name(
                to_add.deep_view(),
                g,
            ) || (in_group(old(store).groups@, g, article_id) && !contains_name(
                to_remove.deep_view(),
                g,
            ))),
        // Other articles' memberships are untouched.
        forall|g: Seq<char>, x: u64|
            x != article_id ==> #[trigger] in_group(final(store).groups@, g, x) == in_group(
                old(store).groups@,
                g,
                x,
            ),
{
    let ghost gs0 = old(store).groups@;
    let nr = to_remove.len();
    let mut i: usize = 0;
    while i < nr
        invariant
            0 <= i <= nr,
            nr == to_remove@.len(),
            store.counter == old(store).counter,
            store.articles == old(store).articles,
            store.score_index == old(store).score_index,
            store.time_index == old(store).time_index,
            store.voters == old(store).voters,
            store.caches == old(store).caches,
            forall|a: int, b: int|
                0 <= a < b < store.groups@.len() ==> store.groups@[a].name@
                    != store.groups@[b].name@,
            forall|gg: int, a: int, b: int|
                0 <= gg < store.groups@.len() && 0 <= a < b < store.groups@[gg].members@.len()
                    ==> #[trigger] store.groups@[gg].members@[a] != #[trigger] store.groups@[gg].members@[b],
            forall|g: Seq<char>| #[trigger] has_group(store.groups@, g) == has_group(gs0, g),
            forall|g: Seq<char>|
                #[trigger] in_group(store.groups@, g, article_id) == (in_group(gs0, g, article_id)
                    && !contains_name(to_remove.deep_view().take(i as int), g)),
            forall|g: Seq<char>, x: u64|
                x != article_id ==> #[trigger] in_group(store.groups@, g, x) == in_group(
                    gs0,
                    g,
                    x,
                ),
        decreases nr - i,
    {
        let name = to_remove[i];
        let ghost pre = store.groups@;
        remove_member(&mut store.groups, name, article_id);
        proof {
            let cur = store.groups@;
            assert forall|g: Seq<char>, x: u64| x != article_id implies #[trigger] in_group(
                cur,
                g,
                x,
            ) == in_group(gs0, g, x) by {
                assert(in_group(cur, g, x) == in_group(pre, g, x));
                assert(in_group(pre, g, x) == in_group(gs0, g, x));
            }
            assert forall|g: Seq<char>| #[trigger]
                in_group(cur, g, article_id) == (in_group(gs0, g, article_id) && !contains_name(
                    to_remove.deep_view().take(i + 1),
                    g,
                )) by {
                assert(in_group(cur, g, article_id) == (in_group(pre, g, article_id) && !(g
                    == name@)));
                assert(to_remove.deep_view().take(i + 1).drop_last() =~= to_remove.deep_view().take(
                    i as int,
                ));
                assert(to_remove.deep_view()[i as int] == name@);
                assert(contains_name(to_remove.deep_view().take(i + 1), g) == (contains_name(
                    to_remove.deep_view().take(i as int),
                    g,
                ) || g == name@)) by {
                    let t = to_remove.deep_view().take(i + 1);
                    if contains_name(t, g) {
                        let k = choose|k: int| 0 <= k < t.len() && t[k] == g;
                        if k < i as int {
                            assert(to_remove.deep_view().take(i as int)[k] == g);
                        } else {
                            assert(t[i as int] == name@);
                        }
                    }
                    if contains_name(to_remove.deep_view().take(i as int), g) {
                        let k = choose|k: int|
                            0 <= k < i as int && to_remove.deep_view().take(i as int)[k] == g;
                        assert(t[k] == g);
                    }
                    if g == name@ {
                        assert(t[i as int] == g);
                    }
                }
            }
        }
        i = i + 1;
    }
    proof {
        assert(to_remove.deep_view().take(nr as int) =~= to_remove.deep_view());
    }
    let ghost gs1 = store.groups@;
    let na = to_add.len();
    let mut j: usize = 0;
    while j < na
        invariant
            0 <= j <= na,
            na == to_add@.len(),
            store.counter == old(store).counter,
            store.articles == old(store).articles,
            store.score_index == old(store).score_index,
            store.time_index == old(store).time_index,
            store.voters == old(store).voters,
            store.caches == old(store).caches,
            forall|a: int, b: int|
                0 <= a < b < store.groups@.len() ==> store.groups@[a].name@
                    != store.groups@[b].name@,
            forall|gg: int, a: int, b: int|
                0 <= gg < store.groups@.len() && 0 <= a < b < store.groups@[gg].members@.len()
                    ==> #[trigger] store.groups@[gg].members@[a] != #[trigger] store.groups@[gg].members@[b],
            forall|g: Seq<char>|
                #[trigger] in_group(store.groups@, g, article_id) == (in_group(gs1, g, article_id)
                    || contains_name(to_add.deep_view().take(j as int), g)),
            forall|g: Seq<char>, x: u64|
                x != article_id ==> #[trigger] in_group(store.groups@, g, x) == in_group(
                    gs1,
                    g,
                    x,
                ),
        decreases na - j,
    {
        let name = to_add[j];
        let ghost pre = store.groups@;
        add_member(&mut store.groups, name, article_id);
        proof {
            let cur = store.groups@;
            assert forall|g: Seq<char>, x: u64| x != article_id implies #[trigger] in_group(
                cur,
                g,
                x,
            ) == in_group(gs1, g, x) by {
                assert(in_group(cur, g, x) == in_group(pre, g, x));
                assert(in_group(pre, g, x) == in_group(gs1, g, x));
            }
            assert forall|g: Seq<char>| #[trigger]
                in_group(cur, g, article_id) == (in_group(gs1, g, article_id) || contains_name(
                    to_add.deep_view().take(j + 1),
                    g,
                )) by {
                assert(in_group(cur, g, article_id) == (in_group(pre, g, article_id) || g
                    == name@));
                assert(to_add.deep_view()[j as int] == name@);
                assert(contains_name(to_add.deep_view().take(j + 1), g) == (contains_name(
                    to_add.deep_view().take(j as int),
                    g,
                ) || g == name@)) by {
                    let t = to_add.deep_view().take(j + 1);
                    if contains_name(t, g) {
                        let k = choose|k: int| 0 <= k < t.len() && t[k] == g;
                        if k < j as int {
                            assert(to_add.deep_view().take(j as int)[k] == g);
                        } else {
                            assert(t[j as int] == name@);
                        }
                    }
                    if contains_name(to_add.deep_view().take(j as int), g) {
                        let k = choose|k: int|
                            0 <= k < j as int && to_add.deep_view().take(j as int)[k] == g;
                        assert(t[k] == g);
                    }
                    if g == name@ {
                        assert(t[j as int] == g);
                    }
                }
            }
        }
        j = j + 1;
    }
    proof {
        assert(to_add.deep_view().take(na as int) =~= to_add.deep_view());
        assert(store.wf()) by {
            let pre = old(store);
            let post = store;
            assert(forall|i2: int|
                0 <= i2 < post.articles@.len() ==> 1 <= (#[trigger] post.articles@[i2]).id
                    <= post.counter);
        }
    }
    true
}

// ---------------------------------------------------------------------
// Listing pages of a ranking.
// ---------------------------------------------------------------------
/// Splits an order key into the ranking it names and a group suffix:
/// `score:<g>` and `time:<g>` name the score and recency rankings,
/// with `<g>` (possibly empty) naming a group.
pub open spec fn order_kind_of(order: Seq<char>) -> Option<(OrderKind, Seq<char>)> {
    if order.len() >= 6 && order.subrange(0, 6) == "score:"@ {
        Some((OrderKind::Score, order.skip(6)))
    } else if order.len() >= 5 && order.subrange(0, 5) == "time:"@ {
        Some((OrderKind::Time, order.skip(5)))
    } else {
        None
    }
}

/// The global ranking of the given kind.
pub open spec fn global_ranking(s: Store, kind: OrderKind) -> Seq<(u64, u64)> {
    match kind {
        OrderKind::Score => s.score_index@,
        OrderKind::Time => s.time_index@,
    }
}

/// The ranking that the order key `order` names in store `s` at time
/// `now`: one of the two global rankings, a still-fresh cached group
/// ranking, or nothing (a key that names no live ranking lists no
/// articles).
pub open spec fn resolve_order(s: Store, order: Seq<char>, now: u64) -> Seq<(u64, u64)> {
    match order_kind_of(order) {
        Some(kg) => {
            if kg.1.len() == 0 {
                global_ranking(s, kg.0)
            } else if cache_fresh(s.caches@, kg.0, kg.1, now) {
                cache_of(s.caches@, kg.0, kg.1).entries@
            } else {
                Seq::empty()
            }
        },
        None => Seq::empty(),
    }
}

/// The entries of `entries` with ranks on page `page`: up to a page's
/// worth, starting at the page's first rank, clamped to the ranking's
/// end.
pub open spec fn page_slice(entries: Seq<(u64, u64)>, page: u8) -> Seq<(u64, u64)> {
    let lo = if spec_page_start(page) <= entries.len() {
        spec_page_start(page)
    } else {
        entries.len() as int
    };
    let hi = if spec_page_start(page) + ARTICLES_PER_PAGE <= entries.len() {
        spec_page_start(page) + ARTICLES_PER_PAGE
    } else {
        entries.len() as int
    };
    entries.subrange(lo, hi)
}

/// The article records behind the entries, in the entries' order.
pub open spec fn records_of(articles: Seq<Article>, entries: Seq<(u64, u64)>) -> Seq<Article> {
    entries.map_values(|e: (u64, u64)| article_of(articles, e.0))
}

/// What listing page `page` of the ranking named `order` returns.
pub open spec fn spec_list(s: Store, page: u8, order: Seq<char>, now: u64) -> Seq<Article> {
    records_of(s.articles@, page_slice(resolve_order(s, order, now), page))
}

/// Decides whether `p` spells the first characters of `s`.
pub fn str_starts_with(s: &str, p: &str) -> (r: bool)
    ensures
        r == (s@.len() >= p@.len() && s@.subrange(0, p@.len() as int) == p@),
{
    let sn = s.unicode_len();
    let pn = p.unicode_len();
    if sn < pn {
        return false;
    }
    let mut i: usize = 0;
    while i < pn
        invariant
            0 <= i <= pn,
            sn == s@.len(),
            pn == p@.len(),
            sn >= pn,
            forall|k: int| 0 <= k < i ==> s@[k] == p@[k],
        decreases pn - i,
    {
        if s.get_char(i) != p.get_char(i) {
            proof {
                assert(s@.subrange(0, p@.len() as int)[i as int] == s@[i as int]);
            }
            return false;
        }
        i = i + 1;
    }
    proof {
        assert(s@.subrange(0, p@.len() as int) =~= p@);
    }
    true
}

/// Finds the position of the cached ranking for `kind` and group `g`.
fn find_cache(caches: &Vec<GroupCache>, kind: OrderKind, g: &str) -> (r: Option<usize>)
    ensures
        match r {
            Some(i) => i < caches@.len() && caches@[i as int].order == kind
                && caches@[i as int].group@ == g@,
            None => !has_cache(caches@, kind, g@),
        },
{
    let n = caches.len();
    let mut i: usize = 0;
    while i < n
        invariant
            0 <= i <= n,
            n == caches@.len(),
            forall|k: int| 0 <= k < i ==> !(caches@[k].order == kind && caches@[k].group@ == g@),
        decreases n - i,
    {
        let c = &caches[i];
        if c.order == kind && str_eq(c.group.as_str(), g) {
            return Some(i);
        }
        i = i + 1;
    }
    None
}

/// Finds the ranking that the order key `order` names at time `now`:
/// a global ranking or a fresh cached group ranking.
fn resolve_ranking<'a>(store: &'a Store, order: &str, now: u64) -> (r: Option<&'a ZSet>)
    requires
        store.wf(),
    ensures
        match r {
            Some(z) => z@ == resolve_order(*store, order@, now) && z.wf() && (forall|k: int|
                0 <= k < z@.len() ==> has_article_in(store.articles@, (#[trigger] z@[k]).0)),
            None => resolve_order(*store, order@, now) == Seq::<(u64, u64)>::empty(),
        },
{
    proof {
        reveal_strlit("score:");
        reveal_strlit("time:");
    }
    if str_eq(order, "score:") {
        proof {
            assert(order@.subrange(0, 6) =~= "score:"@);
            assert(order@.skip(6) =~= Seq::<char>::empty());
        }
        return Some(&store.score_index);
    }
    if str_eq(order, "time:") {
        proof {
            assert(order@.subrange(0, 5) =~= "time:"@);
            assert(order@.skip(5) =~= Seq::<char>::empty());
            assert(!(order@.len() >= 6 && order@.subrange(0, 6) == "score:"@)) by {
                if order@.len() >= 6 {
                    assert(order@.subrange(0, 6).len() == 6);
                }
            }
        }
        return Some(&store.time_index);
    }
    let n = order.unicode_len();
    let kind: OrderKind;
    let glen: usize;
    if str_starts_with(order, "score:") {
        kind = OrderKind::Score;
        glen = 6;
    } else if str_starts_with(order, "time:") {
        kind = OrderKind::Time;
        glen = 5;
    } else {
        proof {
            assert(order_kind_of(order@) is None);
        }
        return None;
    }
    proof {
        assert(order_kind_of(order@) == Some((kind, order@.skip(glen as int)))) by {
            if kind == OrderKind::Time && order@.len() >= 6 && order@.subrange(0, 6) == "score:"@ {
                assert(order@.subrange(0, 5)[0] == order@.subrange(0, 6)[0]);
                assert("time:"@[0] == 't' && "score:"@[0] == 's');
            }
        }
        assert(order@.skip(glen as int).len() > 0) by {
            if order@.len() == glen as int {
                assert(order@.subrange(0, glen as int) =~= order@);
                if kind == OrderKind::Score {
                    assert(order@ == "score:"@);
                } else {
                    assert(order@ == "time:"@);
                }
            }
        }
    }
    let g = order.substring_char(glen, n);
    match find_cache(&store.caches, kind, g) {
        Some(ci) => {
            proof {
                assert(ci as int == cache_idx(store.caches@, kind, g@)) by {
                    let c = cache_idx(store.caches@, kind, g@);
                    assert(has_cache(store.caches@, kind, g@));
                    assert(0 <= c < store.caches@.len() && store.caches@[c].order == kind
                        && store.caches@[c].group@ == g@);
                    if c != ci as int {
                        assert(!(store.caches@[c].order == store.caches@[ci as int].order
                            && store.caches@[c].group@ == store.caches@[ci as int].group@));
                    }
                }
            }
            let c = &store.caches[ci];
            if now < c.expires_at {
                Some(&c.entries)
            } else {
                None
            }
        },
        None => None,
    }
}

/// Lists page `page` (1-based, up to 25 records) of the ranking that
/// the order key `order` names, best rank first, each listed article
/// as its full record.
pub fn get_articles(store: &Store, page: u8, order: &str, now: u64) -> (r: Vec<Article>)
    requires
        store.wf(),
        page >= 1,
    ensures
        r@ == spec_list(*store, page, order@, now),
{
    let (start, end) = page_bounds(page);
    let mut out: Vec<Article> = Vec::new();
    match resolve_ranking(store, order, now) {
        None => {
            proof {
                assert(page_slice(Seq::<(u64, u64)>::empty(), page) =~= Seq::<(u64, u64)>::empty());
                assert(spec_list(*store, page, order@, now) =~= Seq::<Article>::empty());
            }
        },
        Some(z) => {
            out = page_records(&store.articles, z, page);
        },
    }
    out
}

/// Fetches the records on page `page` of the ranking `z`, best rank
/// first.
fn page_records(articles: &Vec<Article>, z: &ZSet, page: u8) -> (r: Vec<Article>)
    requires
        page >= 1,
        forall|i: int, j: int| 0 <= i < j < articles@.len() ==> articles@[i].id != articles@[j].id,
        forall|k: int| 0 <= k < z@.len() ==> has_article_in(articles@, (#[trigger] z@[k]).0),
    ensures
        r@ == records_of(articles@, page_slice(z@, page)),
{
    let (start, end) = page_bounds(page);
    let slice = z.zrevrange(start, end);
    proof {
        assert(slice@ == page_slice(z@, page));
        assert forall|k: int| 0 <= k < slice@.len() implies has_article_in(
            articles@,
            (#[trigger] slice@[k]).0,
        ) by {
            let lo = if start <= z@.len() {
                start as int
            } else {
                z@.len() as int
            };
            assert(slice@[k] == z@[lo + k]);
        }
    }
    let mut out: Vec<Article> = Vec::new();
    let m = slice.len();
    let mut i: usize = 0;
    while i < m
        invariant
            0 <= i <= m,
            m == slice@.len(),
            forall|a: int, b: int|
                0 <= a < b < articles@.len() ==> articles@[a].id != articles@[b].id,
            forall|k: int| 0 <= k < m ==> has_article_in(articles@, (#[trigger] slice@[k]).0),
            out@ == records_of(articles@, slice@.subrange(0, i as int)),
        decreases m - i,
    {
        let id = slice[i].0;
        match find_article(articles, id) {
            Some(ai) => {
                out.push(articles[ai].clone());
                proof {
                    assert(articles@[ai as int] == article_of(articles@, id)) by {
                        let a = article_idx(articles@, id);
                        assert(0 <= a < articles@.len() && articles@[a].id == id);
                        if a != ai as int {
                            assert(articles@[a].id != articles@[ai as int].id);
                        }
                    }
                    assert(out@ =~= records_of(articles@, slice@.subrange(0, i + 1)));
                }
            },
            None => {
                proof {
                    assert(false);
                }
            },
        }
        i = i + 1;
    }
    proof {
        assert(slice@.subrange(0, m as int) =~= slice@);
    }
    out
}

/// The ranking kind that the order key `order` (one of `score:` and
/// `time:`) names.
pub open spec fn spec_order_kind(order: Seq<char>) -> OrderKind {
    if order == "score:"@ {
        OrderKind::Score
    } else {
        OrderKind::Time
    }
}

/// How the cached rankings change when the cache for `kind` and group
/// `g` is written with entries `e`, lapsing at `expires`: the entry is
/// replaced in place, or appended where none existed, and all others
/// stay.
pub open spec fn cache_updated(
    c0: Seq<GroupCache>,
    c1: Seq<GroupCache>,
    kind: OrderKind,
    g: Seq<char>,
    e: Seq<(u64, u64)>,
    expires: u64,
) -> bool {
    let ci = if has_cache(c0, kind, g) {
        cache_idx(c0, kind, g)
    } else {
        c0.len() as int
    };
    &&& c1.len() == (if has_cache(c0, kind, g) {
        c0.len() as int
    } else {
        c0.len() + 1int
    })
    &&& forall|j: int| 0 <= j < c1.len() && j != ci ==> c1[j] == c0[j]
    &&& 0 <= ci < c1.len()
    &&& c1[ci].order == kind
    &&& c1[ci].group@ == g
    &&& c1[ci].entries@ == e
    &&& c1[ci].expires_at == expires
}

/// What listing a page of group `g`'s ranking of kind `kind` at time
/// `now` does. With a fresh cached ranking, nothing changes and the
/// page comes from the cache. Otherwise the group's members are
/// intersected with the global ranking of that kind (each member
/// keeping its global score), the result is cached until `now` plus
/// the cache's time to live, and the page comes from it.
pub open spec fn listgroup_post(
    pre: Store,
    post: Store,
    r: Seq<Article>,
    kind: OrderKind,
    g: Seq<char>,
    page: u8,
    now: u64,
) -> bool {
    if cache_fresh(pre.caches@, kind, g, now) {
        post == pre && r == records_of(
            pre.articles@,
            page_slice(cache_of(pre.caches@, kind, g).entries@, page),
        )
    } else {
        let e = inter(global_ranking(pre, kind), group_members(pre.groups@, g));
        &&& post.counter == pre.counter
        &&& post.articles == pre.articles
        &&& post.score_index == pre.score_index
        &&& post.time_index == pre.time_index
        &&& post.voters == pre.voters
        &&& post.groups == pre.groups
        &&& cache_updated(pre.caches@, post.caches@, kind, g, e, (now + GROUP_CACHE_TTL) as u64)
        &&& r == records_of(pre.articles@, page_slice(e, page))
    }
}

/// Lists page `page` of the group `group`'s ranking of the kind the
/// order key `order` names: the group's members ranked as the global
/// ranking ranks them. The derived ranking is computed at most once
/// per cache lifetime and served from the cache in between.
pub fn get_group_articles(
    store: &mut Store,
    group: &str,
    page: u8,
    order: &str,
    now: u64,
) -> (r: Vec<Article>)
    requires
        old(store).wf(),
        page >= 1,
        group@.len() >= 1,
        order@ == "score:"@ || order@ == "time:"@,
        now + GROUP_CACHE_TTL <= u64::MAX,
    ensures
        final(store).wf(),
        listgroup_post(
            *old(store),
            *final(store),
            r@,
            spec_order_kind(order@),
            group@,
            page,
            now,
        ),
{
    let kind = if str_eq(order, "score:") {
        OrderKind::Score
    } else {
        OrderKind::Time
    };
    proof {
        assert(kind == spec_order_kind(order@));
    }
    let cache_hit = match find_cache(&store.caches, kind, group) {
        Some(ci) => {
            if now < store.caches[ci].expires_at {
                Some(ci)
            } else {
                None
            }
        },
        None => None,
    };
    proof {
        if has_cache(store.caches@, kind, group@) {
            let c = cache_idx(store.caches@, kind, group@);
            assert(0 <= c < store.caches@.len() && store.caches@[c].order == kind
                && store.caches@[c].group@ == group@);
        }
    }
    match cache_hit {
        Some(ci) => {
            proof {
                assert(ci as int == cache_idx(store.caches@, kind, group@)) by {
                    let c = cache_idx(store.caches@, kind, group@);
                    if c != ci as int {
                        assert(!(store.caches@[c].order == store.caches@[ci as int].order
                            && store.caches@[c].group@ == store.caches@[ci as int].group@));
                    }
                }
                assert(cache_fresh(store.caches@, kind, group@, now));
            }
            let r = page_records(&store.articles, &store.caches[ci].entries, page);
            r
        },
        None => {
            proof {
                assert(!cache_fresh(store.caches@, kind, group@, now)) by {
                    if has_cache(store.caches@, kind, group@) {
                        let c = cache_idx(store.caches@, kind, group@);
                        assert(store.caches@[c].order == kind && store.caches@[c].group@
                            == group@);
                    }
                }
            }
            let entries: ZSet = match find_group(&store.groups, group) {
                Some(gi) => {
                    proof {
                        assert(gi as int == group_idx(store.groups@, group@)) by {
                            let k = group_idx(store.groups@, group@);
                            assert(0 <= k < store.groups@.len() && store.groups@[k].name@
                                == group@);
                            if k != gi as int {
                                assert(store.groups@[k].name@ != store.groups@[gi as int].name@);
                            }
                        }
                        assert(group_members(store.groups@, group@) == store.groups@[gi as int].members@);
                    }
                    if matches!(kind, OrderKind::Score) {
                        store.score_index.inter_members(&store.groups[gi].members)
                    } else {
                        store.time_index.inter_members(&store.groups[gi].members)
                    }
                },
                None => {
                    proof {
                        crate::zset::lemma_inter_empty(global_ranking(*store, kind));
                        assert(group_members(store.groups@, group@) =~= Seq::<u64>::empty());
                    }
                    ZSet::new()
                },
            };
            proof {
                assert(entries@ == inter(
                    global_ranking(*store, kind),
                    group_members(store.groups@, group@),
                ));
                assert forall|k: int| 0 <= k < entries@.len() implies has_article_in(
                    store.articles@,
                    (#[trigger] entries@[k]).0,
                ) by {
                    let gl = global_ranking(*store, kind);
                    assert(entries@.contains(entries@[k]));
                    crate::zset::lemma_inter_contains(
                        gl,
                        group_members(store.groups@, group@),
                        entries@[k],
                    );
                    let m = choose|m: int| 0 <= m < gl.len() && gl[m] == entries@[k];
                    assert(has_article_in(store.articles@, gl[m].0));
                }
            }
            let r = page_records(&store.articles, &entries, page);
            let new_cache = GroupCache {
                order: kind,
                group: group.to_owned(),
                entries,
                expires_at: now + GROUP_CACHE_TTL,
            };
            let ghost c0 = store.caches@;
            match find_cache(&store.caches, kind, group) {
                Some(ci) => {
                    proof {
                        assert(ci as int == cache_idx(c0, kind, group@)) by {
                            let c = cache_idx(c0, kind, group@);
                            if c != ci as int {
                                assert(!(c0[c].order == c0[ci as int].order && c0[c].group@
                                    == c0[ci as int].group@));
                            }
                        }
                    }
                    store.caches[ci] = new_cache;
                },
                None => {
                    store.caches.push(new_cache);
                },
            }
            proof {
                let c1 = store.caches@;
                let pre = old(store);
                assert(cache_updated(
                    c0,
                    c1,
                    kind,
                    group@,
                    entries@,
                    (now + GROUP_CACHE_TTL) as u64,
                ));
                assert(store.wf()) by {
                    let ci = if has_cache(c0, kind, group@) {
                        cache_idx(c0, kind, group@)
                    } else {
                        c0.len() as int
                    };
                    assert forall|i: int, j: int| 0 <= i < j < c1.len() implies !(c1[i].order
                        == c1[j].order && c1[i].group@ == c1[j].group@) by {
                        if i != ci && j != ci {
                            assert(c1[i] == c0[i] && c1[j] == c0[j]);
                        } else if i == ci {
                            assert(c1[j] == c0[j]);
                            if c1[j].order == kind && c1[j].group@ == group@ {
                                assert(has_cache(c0, kind, group@));
                                let c = cache_idx(c0, kind, group@);
                                assert(c == ci) by {
                                    if c != ci {
                                        assert(!(c0[c].order == c0[ci].order && c0[c].group@
                                            == c0[ci].group@));
                                    }
                                }
                                assert(!(c0[ci].order == c0[j].order && c0[ci].group@
                                    == c0[j].group@));
                            }
                        } else {
                            assert(c1[i] == c0[i]);
                            if c1[i].order == kind && c1[i].group@ == group@ {
                                assert(has_cache(c0, kind, group@));
                                let c = cache_idx(c0, kind, group@);
                                assert(c == ci) by {
                                    if c != ci {
                                        assert(!(c0[c].order == c0[ci].order && c0[c].group@
                                            == c0[ci].group@));
                                    }
                                }
                                assert(!(c0[i].order == c0[ci].order && c0[i].group@
                                    == c0[ci].group@));
                            }
                        }
                    }
                    assert forall|i: int| 0 <= i < c1.len() implies (
                    #[trigger] c1[i]).entries.wf() by {
                        if i != ci {
                            assert(c1[i] == c0[i]);
                        }
                    }
                    assert forall|i: int, k: int|
                        0 <= i < c1.len() && 0 <= k < c1[i].entries@.len() implies has_article_in(
                        store.articles@,
                        #[trigger] c1[i].entries@[k].0,
                    ) by {
                        if i != ci {
                            assert(c1[i] == c0[i]);
                            assert(has_article_in(pre.articles@, c0[i].entries@[k].0));
                        }
                    }
                }
            }
            r
        },
    }
}

} // verus!

