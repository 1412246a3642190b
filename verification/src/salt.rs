//! The pool of salts that the server has issued for the session: which of
//! them to attach to the next request, how the server's updates are merged
//! in, and how expired ones are dropped.

use vstd::prelude::*;

verus! {

/// A server-issued value that must accompany every request, with the
/// window of time in which the server accepts it.
#[derive(Clone, Copy, Debug, PartialEq, Eq, Structural)]
pub struct Salt {
    /// The salt itself; it also identifies the entry.
    pub id: i64,
    /// Start of the validity window.
    pub valid_since: i64,
    /// End of the validity window.
    pub valid_until: i64,
}

/// Whether the window of `a` is no later than that of `b`: it ends
/// earlier, or ends at the same time and starts no later.
pub open spec fn window_le(a: Salt, b: Salt) -> bool {
    a.valid_until < b.valid_until || (a.valid_until == b.valid_until && a.valid_since
        <= b.valid_since)
}

/// Whether the window of `a` is strictly later than that of `b`.
pub open spec fn later(a: Salt, b: Salt) -> bool {
    !window_le(a, b)
}

/// Whether the salts come in the order of their windows, earliest first.
pub open spec fn sorted(s: Seq<Salt>) -> bool {
    forall|i: int, j: int| 0 <= i < j < s.len() ==> window_le(#[trigger] s[i], #[trigger] s[j])
}

/// Whether no identifier occurs twice.
pub open spec fn unique(s: Seq<Salt>) -> bool {
    forall|i: int, j: int| 0 <= i < j < s.len() ==> (#[trigger] s[i]).id != (#[trigger] s[j]).id
}

/// Whether some entry has the identifier `id`.
pub open spec fn holds(s: Seq<Salt>, id: i64) -> bool {
    exists|i: int| 0 <= i < s.len() && (#[trigger] s[i]).id == id
}

/// The index of an entry with the identifier `id`.
pub open spec fn position(s: Seq<Salt>, id: i64) -> int {
    choose|i: int| 0 <= i < s.len() && (#[trigger] s[i]).id == id
}

/// Where `x` goes in an ordered sequence: behind every entry whose window
/// is no later than its own.
pub open spec fn slot(s: Seq<Salt>, x: Salt) -> int
    decreases s.len(),
{
    if s.len() == 0 {
        0
    } else if window_le(s.last(), x) {
        s.len() as int
    } else {
        slot(s.drop_last(), x)
    }
}

/// `s` with `x` put in its place.
pub open spec fn placed(s: Seq<Salt>, x: Salt) -> Seq<Salt> {
    s.insert(slot(s, x), x)
}

/// `s` after one salt from the server has been merged in: a new identifier
/// is added, a known one keeps the later of its two windows.
pub open spec fn merged(s: Seq<Salt>, x: Salt) -> Seq<Salt> {
    if holds(s, x.id) {
        let i = position(s, x.id);
        if later(x, s[i]) {
            placed(s.remove(i), x)
        } else {
            s
        }
    } else {
        placed(s, x)
    }
}

/// `s` after the salts `xs` have been merged in, one after the other.
pub open spec fn merged_all(s: Seq<Salt>, xs: Seq<Salt>) -> Seq<Salt>
    decreases xs.len(),
{
    if xs.len() == 0 {
        s
    } else {
        merged(merged_all(s, xs.drop_last()), xs.last())
    }
}

/// `s` without its leading entries whose window ended before `now`; in an
/// ordered sequence these are all the entries that have expired.
pub open spec fn pruned(s: Seq<Salt>, now: i64) -> Seq<Salt>
    decreases s.len(),
{
    if s.len() == 0 || s[0].valid_until >= now {
        s
    } else {
        pruned(s.drop_first(), now)
    }
}

/// The salt to use at time `now`: the last of an ordered sequence, if its
/// window has not ended.
pub open spec fn current(s: Seq<Salt>, now: i64) -> Option<Salt> {
    if s.len() > 0 && s.last().valid_until >= now {
        Some(s.last())
    } else {
        None
    }
}

/// `s` without the entry that has the identifier `id`, if there is one.
pub open spec fn without(s: Seq<Salt>, id: i64) -> Seq<Salt> {
    if holds(s, id) {
        s.remove(position(s, id))
    } else {
        s
    }
}

/// Whether `s` has an entry for the identifier of `x` whose window is no
/// earlier than that of `x`.
pub open spec fn covers(s: Seq<Salt>, x: Salt) -> bool {
    exists|i: int| 0 <= i < s.len() && (#[trigger] s[i]).id == x.id && window_le(x, s[i])
}

/// In an ordered sequence the slot of `x` lies behind all entries that are
/// no later than `x` and before all that are later.
pub proof fn lemma_slot(s: Seq<Salt>, x: Salt)
    requires
        sorted(s),
    ensures
        0 <= slot(s, x) <= s.len(),
        forall|j: int| 0 <= j < slot(s, x) ==> window_le(#[trigger] s[j], x),
        forall|j: int| slot(s, x) <= j < s.len() ==> later(#[trigger] s[j], x),
    decreases s.len(),
{
    if s.len() > 0 && !window_le(s.last(), x) {
        let front = s.drop_last();
        lemma_slot(front, x);
        assert forall|j: int| 0 <= j < slot(s, x) implies window_le(#[trigger] s[j], x) by {
            assert(s[j] == front[j]);
        }
        assert forall|j: int| slot(s, x) <= j < s.len() implies later(#[trigger] s[j], x) by {
            if j < front.len() {
                assert(s[j] == front[j]);
            }
        }
    }
}

/// Putting a salt with a new identifier in its place keeps order and
/// uniqueness.
pub proof fn lemma_placed(s: Seq<Salt>, x: Salt)
    requires
        sorted(s),
        unique(s),
        !holds(s, x.id),
    ensures
        sorted(placed(s, x)),
        unique(placed(s, x)),
        placed(s, x).len() == s.len() + 1,
        placed(s, x)[slot(s, x)] == x,
{
    lemma_slot(s, x);
    let k = slot(s, x);
    let r = placed(s, x);
    assert forall|i: int, j: int| 0 <= i < j < r.len() implies window_le(
        #[trigger] r[i],
        #[trigger] r[j],
    ) by {
        if j < k {
            assert(r[i] == s[i] && r[j] == s[j]);
        } else if j == k {
            assert(r[i] == s[i]);
        } else if i < k {
            assert(r[i] == s[i] && r[j] == s[j - 1]);
        } else if i == k {
            assert(r[j] == s[j - 1]);
        } else {
            assert(r[i] == s[i - 1] && r[j] == s[j - 1]);
        }
    }
    assert forall|i: int, j: int| 0 <= i < j < r.len() implies (#[trigger] r[i]).id != (
    #[trigger] r[j]).id by {
        let a = if i < k {
            i
        } else {
            i - 1
        };
        let b = if j < k {
            j
        } else {
            j - 1
        };
        if i != k {
            assert(r[i] == s[a]);
        }
        if j != k {
            assert(r[j] == s[b]);
        }
    }
}

/// Taking an entry out keeps order and uniqueness, and its identifier is
/// gone.
pub proof fn lemma_removed(s: Seq<Salt>, i: int)
    requires
        sorted(s),
        unique(s),
        0 <= i < s.len(),
    ensures
        sorted(s.remove(i)),
        unique(s.remove(i)),
        !holds(s.remove(i), s[i].id),
{
    let r = s.remove(i);
    assert forall|a: int| 0 <= a < r.len() implies #[trigger] r[a] == s[if a < i {
        a
    } else {
        a + 1
    }] by {}
    assert forall|a: int, b: int| 0 <= a < b < r.len() implies window_le(
        #[trigger] r[a],
        #[trigger] r[b],
    ) by {
        let a2 = if a < i {
            a
        } else {
            a + 1
        };
        let b2 = if b < i {
            b
        } else {
            b + 1
        };
        assert(r[a] == s[a2] && r[b] == s[b2]);
    }
    assert forall|a: int, b: int| 0 <= a < b < r.len() implies (#[trigger] r[a]).id != (
    #[trigger] r[b]).id by {
        let a2 = if a < i {
            a
        } else {
            a + 1
        };
        let b2 = if b < i {
            b
        } else {
            b + 1
        };
        assert(r[a] == s[a2] && r[b] == s[b2]);
    }
    assert forall|a: int| 0 <= a < r.len() implies (#[trigger] r[a]).id != s[i].id by {
        let a2 = if a < i {
            a
        } else {
            a + 1
        };
        assert(r[a] == s[a2]);
    }
}

/// Where identifiers are unique, the entry holding one is found at one
/// index only.
pub proof fn lemma_position(s: Seq<Salt>, i: int)
    requires
        unique(s),
        0 <= i < s.len(),
    ensures
        holds(s, s[i].id),
        position(s, s[i].id) == i,
{
    let p = position(s, s[i].id);
    assert(0 <= p < s.len() && s[p].id == s[i].id);
    if p < i {
        assert(s[p].id != s[i].id);
    } else if i < p {
        assert(s[i].id != s[p].id);
    }
}

/// Merging a salt in keeps order and uniqueness.
pub proof fn lemma_merged_well_formed(s: Seq<Salt>, x: Salt)
    requires
        sorted(s),
        unique(s),
    ensures
        sorted(merged(s, x)),
        unique(merged(s, x)),
{
    if holds(s, x.id) {
        let i = position(s, x.id);
        if later(x, s[i]) {
            lemma_removed(s, i);
            lemma_placed(s.remove(i), x);
        }
    } else {
        lemma_placed(s, x);
    }
}

/// Merging any number of salts in keeps order and uniqueness.
pub proof fn lemma_merged_all_well_formed(s: Seq<Salt>, xs: Seq<Salt>)
    requires
        sorted(s),
        unique(s),
    ensures
        sorted(merged_all(s, xs)),
        unique(merged_all(s, xs)),
    decreases xs.len(),
{
    if xs.len() > 0 {
        lemma_merged_all_well_formed(s, xs.drop_last());
        lemma_merged_well_formed(merged_all(s, xs.drop_last()), xs.last());
    }
}

/// Once merged in, a salt is covered.
pub proof fn lemma_merged_covers(s: Seq<Salt>, x: Salt)
    requires
        sorted(s),
        unique(s),
    ensures
        covers(merged(s, x), x),
{
    if holds(s, x.id) {
        let i = position(s, x.id);
        if later(x, s[i]) {
            lemma_removed(s, i);
            lemma_placed(s.remove(i), x);
            lemma_slot(s.remove(i), x);
            assert(merged(s, x)[slot(s.remove(i), x)] == x);
        } else {
            assert(s[i].id == x.id && window_le(x, s[i]));
        }
    } else {
        lemma_placed(s, x);
        lemma_slot(s, x);
        assert(merged(s, x)[slot(s, x)] == x);
    }
}

/// Merging never loses ground: a salt that was covered stays covered.
pub proof fn lemma_merged_keeps_cover(s: Seq<Salt>, x: Salt, y: Salt)
    requires
        sorted(s),
        unique(s),
        covers(s, y),
    ensures
        covers(merged(s, x), y),
{
    let w = choose|w: int| 0 <= w < s.len() && (#[trigger] s[w]).id == y.id && window_le(y, s[w]);
    let r = merged(s, x);
    if holds(s, x.id) {
        let i = position(s, x.id);
        if later(x, s[i]) {
            let t = s.remove(i);
            lemma_removed(s, i);
            lemma_placed(t, x);
            lemma_slot(t, x);
            let k = slot(t, x);
            if w == i {
                assert(r[k] == x);
                assert(r[k].id == y.id && window_le(y, r[k]));
            } else {
                let w1 = if w < i {
                    w
                } else {
                    w - 1
                };
                assert(t[w1] == s[w]);
                let w2 = if w1 < k {
                    w1
                } else {
                    w1 + 1
                };
                assert(r[w2] == s[w]);
                assert(r[w2].id == y.id && window_le(y, r[w2]));
            }
        }
    } else {
        lemma_slot(s, x);
        let k = slot(s, x);
        let w2 = if w < k {
            w
        } else {
            w + 1
        };
        assert(r[w2] == s[w]);
        assert(r[w2].id == y.id && window_le(y, r[w2]));
    }
}

/// Merging a salt that is covered already changes nothing.
pub proof fn lemma_covered_unchanged(s: Seq<Salt>, x: Salt)
    requires
        unique(s),
        covers(s, x),
    ensures
        merged(s, x) == s,
{
    let w = choose|w: int| 0 <= w < s.len() && (#[trigger] s[w]).id == x.id && window_le(x, s[w]);
    lemma_position(s, w);
}

/// After a set of salts has been merged in, each of them is covered.
pub proof fn lemma_merged_all_covers(s: Seq<Salt>, xs: Seq<Salt>, k: int)
    requires
        sorted(s),
        unique(s),
        0 <= k < xs.len(),
    ensures
        covers(merged_all(s, xs), xs[k]),
    decreases xs.len(),
{
    let front = xs.drop_last();
    let m = merged_all(s, front);
    lemma_merged_all_well_formed(s, front);
    if k == xs.len() - 1 {
        lemma_merged_covers(m, xs.last());
    } else {
        lemma_merged_all_covers(s, front, k);
        assert(front[k] == xs[k]);
        lemma_merged_keeps_cover(m, xs.last(), xs[k]);
    }
}

/// Merging salts that are all covered already changes nothing.
pub proof fn lemma_all_covered_unchanged(s: Seq<Salt>, xs: Seq<Salt>)
    requires
        unique(s),
        forall|k: int| 0 <= k < xs.len() ==> covers(s, #[trigger] xs[k]),
    ensures
        merged_all(s, xs) == s,
    decreases xs.len(),
{
    if xs.len() > 0 {
        let front = xs.drop_last();
        assert forall|k: int| 0 <= k < front.len() implies covers(s, #[trigger] front[k]) by {
            assert(front[k] == xs[k]);
        }
        lemma_all_covered_unchanged(s, front);
        assert(covers(s, xs[xs.len() - 1]));
        lemma_covered_unchanged(s, xs.last());
    }
}

/// Ingesting is idempotent: merging the same salts in a second time leaves
/// the store as the first time left it.
pub proof fn lemma_ingest_idempotent(s: Seq<Salt>, xs: Seq<Salt>)
    requires
        sorted(s),
        unique(s),
    ensures
        merged_all(merged_all(s, xs), xs) == merged_all(s, xs),
{
    let once = merged_all(s, xs);
    lemma_merged_all_well_formed(s, xs);
    assert forall|k: int| 0 <= k < xs.len() implies covers(once, #[trigger] xs[k]) by {
        lemma_merged_all_covers(s, xs, k);
    }
    lemma_all_covered_unchanged(once, xs);
}

/// Pruning an ordered sequence cuts off exactly the expired entries: what
/// remains is the tail from the first entry whose window has not ended.
pub proof fn lemma_pruned(s: Seq<Salt>, now: i64)
    requires
        sorted(s),
    ensures
        pruned(s, now).len() <= s.len(),
        pruned(s, now) == s.subrange(s.len() - pruned(s, now).len(), s.len() as int),
        forall|j: int|
            0 <= j < s.len() - pruned(s, now).len() ==> (#[trigger] s[j]).valid_until < now,
        forall|j: int|
            s.len() - pruned(s, now).len() <= j < s.len() ==> (#[trigger] s[j]).valid_until >= now,
    decreases s.len(),
{
    if s.len() == 0 || s[0].valid_until >= now {
        assert(s.subrange(0, s.len() as int) =~= s);
        assert forall|j: int| 0 <= j < s.len() implies (#[trigger] s[j]).valid_until >= now by {
            if j > 0 {
                assert(window_le(s[0], s[j]));
            }
        }
    } else {
        let rest = s.drop_first();
        assert forall|i: int, j: int| 0 <= i < j < rest.len() implies window_le(
            #[trigger] rest[i],
            #[trigger] rest[j],
        ) by {
            assert(rest[i] == s[i + 1] && rest[j] == s[j + 1]);
        }
        lemma_pruned(rest, now);
        let p = pruned(rest, now);
        let k = rest.len() - p.len();
        assert(rest.subrange(k, rest.len() as int) =~= s.subrange(k + 1, s.len() as int));
        assert forall|j: int| 0 <= j < k + 1 implies (#[trigger] s[j]).valid_until < now by {
            if j > 0 {
                assert(s[j] == rest[j - 1]);
            }
        }
        assert forall|j: int| k + 1 <= j < s.len() implies (#[trigger] s[j]).valid_until
            >= now by {
            assert(s[j] == rest[j - 1]);
        }
    }
}

/// Pruning keeps order and uniqueness.
pub proof fn lemma_pruned_well_formed(s: Seq<Salt>, now: i64)
    requires
        sorted(s),
        unique(s),
    ensures
        sorted(pruned(s, now)),
        unique(pruned(s, now)),
{
    lemma_pruned(s, now);
    let p = pruned(s, now);
    let k = s.len() - p.len();
    assert forall|i: int, j: int| 0 <= i < j < p.len() implies window_le(
        #[trigger] p[i],
        #[trigger] p[j],
    ) && p[i].id != p[j].id by {
        assert(p[i] == s[k + i] && p[j] == s[k + j]);
    }
}

/// The salt picked from an ordered sequence is one of its entries, has not
/// expired, and no entry has a later window; none is picked only where
/// every entry has expired.
pub proof fn lemma_current_is_latest(s: Seq<Salt>, now: i64)
    requires
        sorted(s),
    ensures
        current(s, now) matches Some(x) ==> s.contains(x) && x.valid_until >= now && forall|
            j: int,
        | 0 <= j < s.len() ==> window_le(#[trigger] s[j], x),
        current(s, now) is None ==> forall|j: int|
            0 <= j < s.len() ==> (#[trigger] s[j]).valid_until < now,
{
    if s.len() > 0 {
        let last = s.len() - 1;
        assert(s[last] == s.last());
        assert forall|j: int| 0 <= j < s.len() implies window_le(#[trigger] s[j], s.last()) by {
            if j < last {
                assert(window_le(s[j], s[last]));
            }
        }
        if s.last().valid_until < now {
            assert forall|j: int| 0 <= j < s.len() implies (#[trigger] s[j]).valid_until
                < now by {
                assert(window_le(s[j], s.last()));
            }
        }
    }
}

/// After the entries that expired before `now` have been dropped, no salt
/// is picked whose window ended before `now`, whatever the time of asking.
pub proof fn lemma_pick_after_expire(s: Seq<Salt>, now: i64, asked: i64)
    requires
        sorted(s),
    ensures
        current(pruned(s, now), asked) matches Some(x) ==> x.valid_until >= now && x.valid_until
            >= asked && s.contains(x),
{
    lemma_pruned(s, now);
    let p = pruned(s, now);
    if p.len() > 0 {
        let k = s.len() - p.len();
        assert(p.last() == s[k + p.len() - 1]);
    }
}

/// Once a salt whose window has not ended has been merged in, there is a
/// salt to pick.
pub proof fn lemma_valid_salt_is_picked(s: Seq<Salt>, xs: Seq<Salt>, k: int, now: i64)
    requires
        sorted(s),
        unique(s),
        0 <= k < xs.len(),
        xs[k].valid_until >= now,
    ensures
        current(merged_all(s, xs), now) is Some,
{
    let all = merged_all(s, xs);
    lemma_merged_all_well_formed(s, xs);
    lemma_merged_all_covers(s, xs, k);
    let w = choose|w: int|
        0 <= w < all.len() && (#[trigger] all[w]).id == xs[k].id && window_le(xs[k], all[w]);
    lemma_current_is_latest(all, now);
}

/// The salts of a session.
pub struct SaltStore {
    salts: Vec<Salt>,
}

impl View for SaltStore {
    type V = Seq<Salt>;

    closed spec fn view(&self) -> Seq<Salt> {
        self.salts@
    }
}

impl Salt {
    /// Whether the window of this salt is strictly later than that of
    /// `other`.
    pub fn is_later_than(&self, other: &Salt) -> (r: bool)
        ensures
            r == later(*self, *other),
    {
        self.valid_until > other.valid_until || (self.valid_until == other.valid_until
            && self.valid_since > other.valid_since)
    }

    /// Whether the window has ended before `now`.
    pub fn expired_at(&self, now: i64) -> (r: bool)
        ensures
            r == (self.valid_until < now),
    {
        self.valid_until < now
    }
}

impl SaltStore {
    /// The representation invariant: ordered by window, no identifier
    /// twice.
    pub open spec fn wf(&self) -> bool {
        sorted(self@) && unique(self@)
    }

    /// A store without salts.
    pub fn new() -> (r: Self)
        ensures
            r.wf(),
            r@ == Seq::<Salt>::empty(),
    {
        SaltStore { salts: Vec::new() }
    }

    /// A store holding the given salts, as after a restart.
    pub fn from_salts(salts: &[Salt]) -> (r: Self)
        ensures
            r.wf(),
            r@ == merged_all(Seq::<Salt>::empty(), salts@),
    {
        let mut store = SaltStore::new();
        store.ingest(salts);
        store
    }

    /// The number of salts held.
    pub fn len(&self) -> (r: usize)
        ensures
            r == self@.len(),
    {
        self.salts.len()
    }

    /// Whether no salt is held.
    pub fn is_empty(&self) -> (r: bool)
        ensures
            r == (self@.len() == 0),
    {
        self.salts.len() == 0
    }

    /// The salt at index `i`, counting from the earliest window.
    pub fn get(&self, i: usize) -> (r: Salt)
        requires
            i < self@.len(),
        ensures
            r == self@[i as int],
    {
        self.salts[i]
    }

    /// The salts held, earliest window first, for a snapshot.
    pub fn to_vec(&self) -> (r: Vec<Salt>)
        ensures
            r@ == self@,
    {
        let mut out: Vec<Salt> = Vec::new();
        let mut i: usize = 0;
        while i < self.salts.len()
            invariant
                i <= self.salts@.len(),
                out@ == self.salts@.subrange(0, i as int),
            decreases self.salts@.len() - i,
        {
            out.push(self.salts[i]);
            i += 1;
        }
        assert(out@ =~= self@);
        out
    }

    /// The salt to attach to a request made at `now`: the one with the
    /// latest window, unless that window has ended.
    pub fn pick_current(&self, now: i64) -> (r: Option<Salt>)
        ensures
            r == current(self@, now),
            self.wf() ==> (r matches Some(x) ==> self@.contains(x) && x.valid_until >= now
                && forall|j: int| 0 <= j < self@.len() ==> window_le(#[trigger] self@[j], x)),
            self.wf() ==> (r is None ==> forall|j: int|
                0 <= j < self@.len() ==> (#[trigger] self@[j]).valid_until < now),
    {
        proof {
            if self.wf() {
                lemma_current_is_latest(self@, now);
            }
        }
        let n = self.salts.len();
        if n == 0 {
            return None;
        }
        let last = self.salts[n - 1];
        if last.expired_at(now) {
            None
        } else {
            Some(last)
        }
    }

    /// Merges one salt from the server in.
    pub fn ingest_one(&mut self, salt: Salt)
        requires
            old(self).wf(),
        ensures
            final(self).wf(),
            final(self)@ == merged(old(self)@, salt),
    {
        let ghost before = self@;
        let n = self.salts.len();
        let mut i: usize = 0;
        while i < n && self.salts[i].id != salt.id
            invariant
                i <= n,
                n == self.salts@.len(),
                self.salts@ == before,
                forall|j: int| 0 <= j < i ==> (#[trigger] before[j]).id != salt.id,
            decreases n - i,
        {
            i += 1;
        }
        proof {
            lemma_merged_well_formed(before, salt);
        }
        if i < n {
            proof {
                lemma_position(before, i as int);
            }
            if !salt.is_later_than(&self.salts[i]) {
                return ;
            }
            self.salts.remove(i);
        }
        let ghost base = self.salts@;
        let mut k: usize = self.salts.len();
        assert(base.subrange(0, k as int) =~= base);
        while k > 0 && self.salts[k - 1].is_later_than(&salt)
            invariant
                k <= self.salts@.len(),
                self.salts@ == base,
                slot(base, salt) == slot(base.subrange(0, k as int), salt),
            decreases k,
        {
            assert(base.subrange(0, k as int).drop_last() =~= base.subrange(0, k - 1));
            k -= 1;
        }
        assert(slot(base, salt) == k) by {
            let head = base.subrange(0, k as int);
            if k > 0 {
                assert(head.last() == base[k - 1]);
            }
        }
        self.salts.insert(k, salt);
    }

    /// Merges the salts of a server update in: new identifiers are added,
    /// known ones keep the later of their two windows, nothing is dropped.
    pub fn ingest(&mut self, new_salts: &[Salt])
        requires
            old(self).wf(),
        ensures
            final(self).wf(),
            final(self)@ == merged_all(old(self)@, new_salts@),
    {
        let mut i: usize = 0;
        while i < new_salts.len()
            invariant
                i <= new_salts@.len(),
                self.wf(),
                self@ == merged_all(old(self)@, new_salts@.subrange(0, i as int)),
            decreases new_salts@.len() - i,
        {
            assert(new_salts@.subrange(0, i + 1).drop_last() =~= new_salts@.subrange(0, i as int));
            self.ingest_one(new_salts[i]);
            i += 1;
        }
        assert(new_salts@.subrange(0, i as int) =~= new_salts@);
    }

    /// Drops the salt with the identifier `id`, which the server has turned
    /// down, and tells whether there was one.
    pub fn invalidate(&mut self, id: i64) -> (r: bool)
        requires
            old(self).wf(),
        ensures
            final(self).wf(),
            r == holds(old(self)@, id),
            final(self)@ == without(old(self)@, id),
            !holds(final(self)@, id),
    {
        let ghost before = self@;
        let n = self.salts.len();
        let mut i: usize = 0;
        while i < n && self.salts[i].id != id
            invariant
                i <= n,
                n == self.salts@.len(),
                self.salts@ == before,
                forall|j: int| 0 <= j < i ==> (#[trigger] before[j]).id != id,
            decreases n - i,
        {
            i += 1;
        }
        if i < n {
            proof {
                lemma_position(before, i as int);
                lemma_removed(before, i as int);
            }
            self.salts.remove(i);
            true
        } else {
            false
        }
    }

    /// Drops the salts whose window ended before `now`.
    pub fn expire_before(&mut self, now: i64)
        requires
            old(self).wf(),
        ensures
            final(self).wf(),
            final(self)@ == pruned(old(self)@, now),
            forall|j: int|
                0 <= j < final(self)@.len() ==> (#[trigger] final(self)@[j]).valid_until >= now,
            forall|j: int|
                0 <= j < old(self)@.len() && (#[trigger] old(self)@[j]).valid_until >= now
                    ==> final(self)@.contains(old(self)@[j]),
    {
        let ghost before = self@;
        let n = self.salts.len();
        let mut k: usize = 0;
        assert(before.subrange(0, n as int) =~= before);
        while k < n && self.salts[k].expired_at(now)
            invariant
                k <= n,
                n == self.salts@.len(),
                self.salts@ == before,
                pruned(before, now) == pruned(before.subrange(k as int, n as int), now),
            decreases n - k,
        {
            assert(before.subrange(k as int, n as int).drop_first() =~= before.subrange(
                k + 1,
                n as int,
            ));
            k += 1;
        }
        let kept = self.salts.split_off(k);
        self.salts = kept;
        proof {
            lemma_pruned_well_formed(before, now);
            lemma_pruned(before, now);
            let after = pruned(before, now);
            let cut = before.len() - after.len();
            assert forall|j: int| 0 <= j < after.len() implies (#[trigger] after[j]).valid_until
                >= now by {
                assert(after[j] == before[cut + j]);
            }
            assert forall|j: int|
                0 <= j < before.len() && (#[trigger] before[j]).valid_until
                    >= now implies after.contains(before[j]) by {
                assert(after[j - cut] == before[j]);
            }
        }
    }
}

} // verus!
