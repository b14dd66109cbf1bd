//! A ranking: a set of article identifiers, each carrying a numeric
//! score, kept ordered from the highest score down.
//!
//! This is the library's model of a remote sorted set. Entries are kept
//! in a vector sorted strictly by descending score, ties broken by
//! descending identifier, and each identifier occurs at most once.

use vstd::prelude::*;

verus! {

/// Whether entry `a` ranks strictly before entry `b` (higher score
/// first; equal scores, higher identifier first). Entries are
/// `(identifier, score)` pairs.
pub open spec fn ranks_before(a: (u64, u64), b: (u64, u64)) -> bool {
    a.1 > b.1 || (a.1 == b.1 && a.0 > b.0)
}

/// Whether `s` is strictly sorted by rank, best first.
pub open spec fn sorted(s: Seq<(u64, u64)>) -> bool {
    forall|i: int, j: int| 0 <= i < j < s.len() ==> ranks_before(s[i], s[j])
}

/// Whether no identifier occurs twice in `s`.
pub open spec fn ids_unique(s: Seq<(u64, u64)>) -> bool {
    forall|i: int, j: int| 0 <= i < j < s.len() ==> s[i].0 != s[j].0
}

/// Whether identifier `id` occurs in `s`.
pub open spec fn zcontains(s: Seq<(u64, u64)>, id: u64) -> bool {
    exists|k: int| 0 <= k < s.len() && s[k].0 == id
}

/// The index at which identifier `id` occurs in `s`.
pub open spec fn zindex_of(s: Seq<(u64, u64)>, id: u64) -> int {
    choose|k: int| 0 <= k < s.len() && s[k].0 == id
}

/// The score recorded for identifier `id` in `s`.
pub open spec fn zscore_of(s: Seq<(u64, u64)>, id: u64) -> u64 {
    s[zindex_of(s, id)].1
}

/// A ranking, modelled on a remote sorted set.
pub struct ZSet {
    pub entries: Vec<(u64, u64)>,
}

impl View for ZSet {
    type V = Seq<(u64, u64)>;

    open spec fn view(&self) -> Seq<(u64, u64)> {
        self.entries@
    }
}

impl ZSet {
    /// Whether the ranking is well formed: sorted best first, one entry
    /// per identifier.
    pub open spec fn wf(&self) -> bool {
        sorted(self@) && ids_unique(self@)
    }

    /// Creates an empty ranking.
    pub fn new() -> (r: ZSet)
        ensures
            r.wf(),
            r@ == Seq::<(u64, u64)>::empty(),
    {
        ZSet { entries: Vec::new() }
    }

    /// The number of entries.
    pub fn len(&self) -> (r: usize)
        ensures
            r == self@.len(),
    {
        self.entries.len()
    }

    /// Looks up the score recorded for `id`, as the store's sorted-set
    /// score query does.
    pub fn zscore(&self, id: u64) -> (r: Option<u64>)
        requires
            self.wf(),
        ensures
            match r {
                Some(sc) => zcontains(self@, id) && sc == zscore_of(self@, id),
                None => !zcontains(self@, id),
            },
    {
        let n = self.entries.len();
        let mut i: usize = 0;
        while i < n
            invariant
                0 <= i <= n,
                n == self@.len(),
                self.wf(),
                forall|k: int| 0 <= k < i ==> self@[k].0 != id,
            decreases n - i,
        {
            let e = self.entries[i];
            if e.0 == id {
                proof {
                    assert(zcontains(self@, id));
                    let k = zindex_of(self@, id);
                    assert(0 <= k < self@.len() && self@[k].0 == id);
                    assert(k == i as int) by {
                        if k != i as int {
                            assert(self@[k].0 != self@[i as int].0);
                        }
                    }
                }
                return Some(e.1);
            }
            i = i + 1;
        }
        None
    }

    /// Adds or replaces the entry for `id` with score `score`, as the
    /// store's sorted-set add does, keeping the ranking sorted.
    pub fn zadd(&mut self, id: u64, score: u64)
        requires
            old(self).wf(),
        ensures
            final(self).wf(),
            forall|e: (u64, u64)|
                #[trigger] final(self)@.contains(e) <==> ((e.0 == id && e.1 == score) || (
                old(self)@.contains(e) && e.0 != id)),
            zcontains(final(self)@, id),
            zscore_of(final(self)@, id) == score,
            forall|id2: u64|
                id2 != id ==> (#[trigger] zcontains(final(self)@, id2) == zcontains(
                    old(self)@,
                    id2,
                ) && (zcontains(old(self)@, id2) ==> zscore_of(final(self)@, id2) == zscore_of(
                    old(self)@,
                    id2,
                ))),
            final(self)@.len() == old(self)@.len() + (if zcontains(old(self)@, id) {
                0int
            } else {
                1int
            }),
    {
        let ghost s0 = self@;
        // Drop any existing entry for this identifier.
        let n = self.entries.len();
        let mut i: usize = 0;
        let mut found: bool = false;
        while i < n && !found
            invariant
                0 <= i <= n,
                n == self@.len(),
                self@ == s0,
                !found ==> forall|k: int| 0 <= k < i ==> self@[k].0 != id,
                found ==> i < n && self@[i as int].0 == id,
            decreases n - i + (if found { 0int } else { 1int }),
        {
            if self.entries[i].0 == id {
                found = true;
            } else {
                i = i + 1;
            }
        }
        if found {
            self.entries.remove(i);
            proof {
                lemma_ordered_remove(s0, i as int);
                assert forall|e: (u64, u64)| #[trigger]
                    self@.contains(e) <==> (s0.contains(e) && e.0 != id) by {
                    lemma_remove_contains(s0, i as int, e);
                    if s0.contains(e) && e.0 != id {
                        let k = choose|k: int| 0 <= k < s0.len() && s0[k] == e;
                        assert(k != i as int);
                        if k < i as int {
                            assert(self@[k] == e);
                        } else {
                            assert(self@[k - 1] == e);
                        }
                    }
                }
                assert(!zcontains(self@, id)) by {
                    if zcontains(self@, id) {
                        let k = zindex_of(self@, id);
                        assert(self@.contains(self@[k]));
                    }
                }
            }
        } else {
            proof {
                assert(!zcontains(self@, id));
                assert(forall|e: (u64, u64)| #[trigger]
                    self@.contains(e) ==> e.0 != id) by {
                    assert forall|e: (u64, u64)| self@.contains(e) implies e.0 != id by {
                        let k = choose|k: int| 0 <= k < self@.len() && self@[k] == e;
                        assert(self@[k].0 != id);
                    }
                }
            }
        }
        let ghost s1 = self@;
        proof {
            assert(forall|e: (u64, u64)| #[trigger] s1.contains(e) <==> (s0.contains(e) && e.0
                != id));
            assert(sorted(s1) && ids_unique(s1));
            assert(s1.len() == s0.len() - (if zcontains(s0, id) {
                1int
            } else {
                0int
            }));
        }
        // Find the insertion point that keeps the order strict.
        let m = self.entries.len();
        let mut p: usize = 0;
        while p < m && entry_ranks_before(self.entries[p], id, score)
            invariant
                0 <= p <= m,
                m == self@.len(),
                self@ == s1,
                forall|k: int| 0 <= k < p ==> ranks_before(self@[k], (id, score)),
            decreases m - p,
        {
            p = p + 1;
        }
        proof {
            if p < m {
                assert(ranks_before((id, score), s1[p as int])) by {
                    assert(s1[p as int].0 != id);
                }
            }
            assert(forall|k: int| p <= k < s1.len() ==> ranks_before((id, score), #[trigger] s1[k]))
                by {
                assert forall|k: int| p <= k < s1.len() implies ranks_before(
                    (id, score),
                    s1[k],
                ) by {
                    if p < s1.len() && k > p {
                        assert(ranks_before(s1[p as int], s1[k]));
                    }
                }
            }
        }
        self.entries.insert(p, (id, score));
        proof {
            lemma_ordered_insert(s1, p as int, (id, score));
            assert forall|e: (u64, u64)| #[trigger]
                self@.contains(e) <==> (s1.contains(e) || e == (id, score)) by {
                lemma_insert_contains(s1, p as int, (id, score), e);
            }
            assert(zcontains(self@, id)) by {
                assert(self@[p as int].0 == id);
            }
            assert(zscore_of(self@, id) == score) by {
                let k = zindex_of(self@, id);
                assert(0 <= k < self@.len() && self@[k].0 == id);
                if k != p as int {
                    assert(self@[k].0 != self@[p as int].0);
                }
            }
            assert forall|id2: u64| id2 != id implies (#[trigger] zcontains(self@, id2)
                == zcontains(s0, id2) && (zcontains(s0, id2) ==> zscore_of(self@, id2)
                == zscore_of(s0, id2))) by {
                if zcontains(self@, id2) {
                    let k = zindex_of(self@, id2);
                    assert(self@.contains(self@[k]));
                    assert(s0.contains(self@[k]));
                    let k0 = choose|x: int| 0 <= x < s0.len() && s0[x] == self@[k];
                    assert(s0[k0].0 == id2);
                }
                if zcontains(s0, id2) {
                    let k0 = zindex_of(s0, id2);
                    assert(s0.contains(s0[k0]));
                    assert(self@.contains(s0[k0]));
                    let k = choose|x: int| 0 <= x < self@.len() && self@[x] == s0[k0];
                    assert(self@[k].0 == id2);
                    assert(zcontains(self@, id2));
                    // Both scores are the score of the one entry with this id.
                    let ka = zindex_of(self@, id2);
                    if ka != k {
                        assert(self@[ka].0 != self@[k].0);
                    }
                    let kb = zindex_of(s0, id2);
                    if kb != k0 {
                        assert(s0[kb].0 != s0[k0].0);
                    }
                }
            }
        }
    }

    /// Raises the score of `id` by `delta`, as the store's sorted-set
    /// increment does for an identifier already in the ranking.
    pub fn zincr(&mut self, id: u64, delta: u64)
        requires
            old(self).wf(),
            zcontains(old(self)@, id),
            zscore_of(old(self)@, id) + delta <= u64::MAX,
        ensures
            final(self).wf(),
            forall|e: (u64, u64)|
                #[trigger] final(self)@.contains(e) <==> ((e.0 == id && e.1 == zscore_of(
                    old(self)@,
                    id,
                ) + delta) || (old(self)@.contains(e) && e.0 != id)),
            zcontains(final(self)@, id),
            zscore_of(final(self)@, id) == zscore_of(old(self)@, id) + delta,
            forall|id2: u64|
                id2 != id ==> (#[trigger] zcontains(final(self)@, id2) == zcontains(
                    old(self)@,
                    id2,
                ) && (zcontains(old(self)@, id2) ==> zscore_of(final(self)@, id2) == zscore_of(
                    old(self)@,
                    id2,
                ))),
            final(self)@.len() == old(self)@.len(),
    {
        let sc = match self.zscore(id) {
            Some(sc) => sc,
            None => 0,  // unreachable: the identifier is in the ranking
        };
        self.zadd(id, sc + delta);
    }

    /// Returns the entries with ranks in `[start, end_excl)`, best
    /// first, as the store's reverse range query does; ranks past the
    /// end of the ranking yield nothing.
    pub fn zrevrange(&self, start: usize, end_excl: usize) -> (r: Vec<(u64, u64)>)
        requires
            start <= end_excl,
        ensures
            r@ == self@.subrange(
                if start <= self@.len() {
                    start as int
                } else {
                    self@.len() as int
                },
                if end_excl <= self@.len() {
                    end_excl as int
                } else {
                    self@.len() as int
                },
            ),
    {
        let n = self.entries.len();
        let lo = if start <= n {
            start
        } else {
            n
        };
        let hi = if end_excl <= n {
            end_excl
        } else {
            n
        };
        let mut r: Vec<(u64, u64)> = Vec::new();
        let mut i: usize = lo;
        while i < hi
            invariant
                lo <= i <= hi <= n,
                n == self@.len(),
                r@ == self@.subrange(lo as int, i as int),
            decreases hi - i,
        {
            r.push(self.entries[i]);
            proof {
                assert(r@ =~= self@.subrange(lo as int, i + 1));
            }
            i = i + 1;
        }
        r
    }
}

/// The entries of `s` whose identifier is in `m`, in the order of `s`:
/// the intersection of a ranking with a membership set, each entry
/// keeping its score.
pub open spec fn inter(s: Seq<(u64, u64)>, m: Seq<u64>) -> Seq<(u64, u64)>
    decreases s.len(),
{
    if s.len() == 0 {
        Seq::empty()
    } else if m.contains(s.last().0) {
        inter(s.drop_last(), m).push(s.last())
    } else {
        inter(s.drop_last(), m)
    }
}

/// Every entry of the intersection comes from the ranking and has a
/// member identifier, and conversely.
pub proof fn lemma_inter_contains(s: Seq<(u64, u64)>, m: Seq<u64>, e: (u64, u64))
    ensures
        inter(s, m).contains(e) <==> (s.contains(e) && m.contains(e.0)),
    decreases s.len(),
{
    if s.len() > 0 {
        lemma_inter_contains(s.drop_last(), m, e);
        assert(s.drop_last().contains(e) ==> s.contains(e));
        if s.contains(e) {
            let k = choose|k: int| 0 <= k < s.len() && s[k] == e;
            if k < s.len() - 1 {
                assert(s.drop_last()[k] == e);
                assert(s.drop_last().contains(e));
            }
        }
        if m.contains(s.last().0) {
            let t = inter(s.drop_last(), m).push(s.last());
            assert(inter(s, m) == t);
            if t.contains(e) {
                let k = choose|k: int| 0 <= k < t.len() && t[k] == e;
                if k < t.len() - 1 {
                    assert(inter(s.drop_last(), m)[k] == e);
                    assert(inter(s.drop_last(), m).contains(e));
                } else {
                    assert(e == s.last());
                    assert(s.contains(e));
                }
            }
            if (s.contains(e) && m.contains(e.0)) {
                if e == s.last() {
                    assert(t[t.len() - 1] == e);
                } else {
                    assert(inter(s.drop_last(), m).contains(e));
                    let k = choose|k: int|
                        0 <= k < inter(s.drop_last(), m).len() && inter(s.drop_last(), m)[k] == e;
                    assert(t[k] == e);
                }
            }
        }
    }
}

/// Intersecting with an empty membership set leaves nothing.
pub proof fn lemma_inter_empty(s: Seq<(u64, u64)>)
    ensures
        inter(s, Seq::<u64>::empty()) == Seq::<(u64, u64)>::empty(),
    decreases s.len(),
{
    if s.len() > 0 {
        lemma_inter_empty(s.drop_last());
    }
}

/// The intersection of a well-formed ranking with a membership set is
/// itself well formed.
pub proof fn lemma_inter_wf(s: Seq<(u64, u64)>, m: Seq<u64>)
    requires
        sorted(s),
        ids_unique(s),
    ensures
        sorted(inter(s, m)),
        ids_unique(inter(s, m)),
    decreases s.len(),
{
    if s.len() > 0 {
        let d = s.drop_last();
        assert(sorted(d) && ids_unique(d)) by {
            assert(forall|i: int| 0 <= i < d.len() ==> d[i] == s[i]);
        }
        lemma_inter_wf(d, m);
        if m.contains(s.last().0) {
            let r = inter(d, m);
            let t = r.push(s.last());
            assert(inter(s, m) == t);
            assert forall|a: int, b: int| 0 <= a < b < t.len() implies ranks_before(t[a], t[b])
                && t[a].0 != t[b].0 by {
                if b < t.len() - 1 {
                    assert(ranks_before(r[a], r[b]) && r[a].0 != r[b].0);
                } else {
                    assert(t[a] == r[a]);
                    assert(r.contains(r[a]));
                    lemma_inter_contains(d, m, r[a]);
                    let k = choose|k: int| 0 <= k < d.len() && d[k] == r[a];
                    assert(s[k] == r[a]);
                    assert(ranks_before(s[k], s[s.len() - 1]));
                    assert(s[k].0 != s[s.len() - 1].0);
                }
            }
            assert(sorted(t));
            assert forall|a: int, b: int| 0 <= a < b < t.len() implies t[a].0 != t[b].0 by {
                if b < t.len() - 1 {
                    assert(r[a].0 != r[b].0);
                } else {
                    assert(t[a] == r[a]);
                    assert(r.contains(r[a]));
                    lemma_inter_contains(d, m, r[a]);
                    let k = choose|k: int| 0 <= k < d.len() && d[k] == r[a];
                    assert(s[k] == r[a]);
                    assert(s[k].0 != s[s.len() - 1].0);
                }
            }
            assert(ids_unique(t));
        } else {
            assert(inter(s, m) == inter(d, m));
        }
    }
}

impl ZSet {
    /// Builds the ranking of the identifiers of `members` that occur in
    /// this ranking, each keeping the score it has here, best first: the
    /// store's intersect-and-store between a membership set and a
    /// ranking, the kept score being the ranking's own.
    pub fn inter_members(&self, members: &Vec<u64>) -> (r: ZSet)
        requires
            self.wf(),
        ensures
            r.wf(),
            r@ == inter(self@, members@),
    {
        let n = self.entries.len();
        let mut out: Vec<(u64, u64)> = Vec::new();
        let mut i: usize = 0;
        while i < n
            invariant
                0 <= i <= n,
                n == self@.len(),
                self.wf(),
                out@ == inter(self@.subrange(0, i as int), members@),
            decreases n - i,
        {
            let e = self.entries[i];
            proof {
                let pre = self@.subrange(0, i + 1);
                assert(pre.drop_last() =~= self@.subrange(0, i as int));
                assert(pre.last() == self@[i as int]);
            }
            if contains_id(members, e.0) {
                out.push(e);
            }
            i = i + 1;
        }
        proof {
            assert(self@.subrange(0, n as int) =~= self@);
            lemma_inter_wf(self@, members@);
        }
        ZSet { entries: out }
    }
}

/// Decides whether `id` occurs in `m`.
pub fn contains_id(m: &Vec<u64>, id: u64) -> (r: bool)
    ensures
        r == m@.contains(id),
{
    let n = m.len();
    let mut i: usize = 0;
    while i < n
        invariant
            0 <= i <= n,
            n == m@.len(),
            forall|k: int| 0 <= k < i ==> m@[k] != id,
        decreases n - i,
    {
        if m[i] == id {
            return true;
        }
        i = i + 1;
    }
    false
}

/// Decides whether entry `a` ranks strictly before the entry
/// `(id, score)`.
fn entry_ranks_before(a: (u64, u64), id: u64, score: u64) -> (r: bool)
    ensures
        r == ranks_before(a, (id, score)),
{
    a.1 > score || (a.1 == score && a.0 > id)
}

/// Removing an entry keeps a ranking sorted and its identifiers unique.
proof fn lemma_ordered_remove(s: Seq<(u64, u64)>, i: int)
    requires
        sorted(s),
        ids_unique(s),
        0 <= i < s.len(),
    ensures
        sorted(s.remove(i)),
        ids_unique(s.remove(i)),
{
    let t = s.remove(i);
    assert forall|a: int, b: int| 0 <= a < b < t.len() implies ranks_before(t[a], t[b]) && t[a].0
        != t[b].0 by {
        let a0 = if a < i {
            a
        } else {
            a + 1
        };
        let b0 = if b < i {
            b
        } else {
            b + 1
        };
        assert(t[a] == s[a0] && t[b] == s[b0]);
    }
}

/// What the removal of one entry leaves: every other entry, once.
proof fn lemma_remove_contains(s: Seq<(u64, u64)>, i: int, e: (u64, u64))
    requires
        ids_unique(s),
        0 <= i < s.len(),
    ensures
        s.remove(i).contains(e) ==> (s.contains(e) && e != s[i]),
{
    let t = s.remove(i);
    if t.contains(e) {
        let k = choose|k: int| 0 <= k < t.len() && t[k] == e;
        let k0 = if k < i {
            k
        } else {
            k + 1
        };
        assert(s[k0] == e);
        assert(s.contains(e));
        assert(k0 != i);
        if e == s[i] {
            assert(s[k0].0 == s[i].0);
        }
    }
}

/// Inserting an entry at a point that respects the order keeps a
/// ranking sorted, and keeps identifiers unique when the new
/// identifier is fresh.
proof fn lemma_ordered_insert(s: Seq<(u64, u64)>, p: int, e: (u64, u64))
    requires
        sorted(s),
        ids_unique(s),
        0 <= p <= s.len(),
        forall|k: int| 0 <= k < p ==> ranks_before(#[trigger] s[k], e),
        forall|k: int| p <= k < s.len() ==> ranks_before(e, #[trigger] s[k]),
        forall|k: int| 0 <= k < s.len() ==> (#[trigger] s[k]).0 != e.0,
    ensures
        sorted(s.insert(p, e)),
        ids_unique(s.insert(p, e)),
{
    let t = s.insert(p, e);
    assert forall|a: int, b: int| 0 <= a < b < t.len() implies ranks_before(t[a], t[b]) && t[a].0
        != t[b].0 by {
        if a == p {
            let b0 = b - 1;
            assert(t[b] == s[b0]);
        } else if b == p {
            let a0 = a;
            assert(t[a] == s[a0]);
        } else {
            let a0 = if a < p {
                a
            } else {
                a - 1
            };
            let b0 = if b < p {
                b
            } else {
                b - 1
            };
            assert(t[a] == s[a0] && t[b] == s[b0]);
        }
    }
}

/// What an insertion adds: the new entry, beside everything already
/// there.
proof fn lemma_insert_contains(s: Seq<(u64, u64)>, p: int, e: (u64, u64), x: (u64, u64))
    requires
        0 <= p <= s.len(),
    ensures
        s.insert(p, e).contains(x) <==> (s.contains(x) || x == e),
{
    let t = s.insert(p, e);
    if t.contains(x) {
        let k = choose|k: int| 0 <= k < t.len() && t[k] == x;
        if k != p {
            let k0 = if k < p {
                k
            } else {
                k - 1
            };
            assert(s[k0] == x);
            assert(s.contains(x));
        }
    }
    if s.contains(x) {
        let k = choose|k: int| 0 <= k < s.len() && s[k] == x;
        let k1 = if k < p {
            k
        } else {
            k + 1
        };
        assert(t[k1] == x);
        assert(t.contains(x));
    }
    if x == e {
        assert(t[p] == x);
        assert(t.contains(x));
    }
}

} // verus!
