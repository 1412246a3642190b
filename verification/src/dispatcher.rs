//! The request dispatch discipline: which requests are in flight, which
//! salt each of them carries, and what is to be done when a request is
//! submitted, salts arrive, a response comes in or a request fails.
//!
//! The dispatcher decides and never waits. Each method takes what has
//! happened and the current time, updates the table, and returns what its
//! owner has to do next.

use crate::salt::{
    current, lemma_valid_salt_is_picked, merged_all, pruned, sorted, unique, without, Salt,
    SaltStore,
};
use vstd::prelude::*;

verus! {

/// Where a request stands.
#[derive(Clone, Copy, Debug, PartialEq, Eq, Structural)]
pub enum Phase {
    /// Accepted while no salt was valid; it goes out when salts arrive.
    Pending,
    /// Sent with the given salt.
    Sent { salt: i64 },
    /// Sent with the given salt and acknowledged; the response is awaited.
    Acked { salt: i64 },
    /// Failed in transit; to be sent again once `resend_at` has come.
    Retrying { resend_at: i64 },
}

/// A request that has been accepted and not yet resolved.
#[derive(Debug)]
pub struct InFlight {
    /// The correlation identifier chosen by the caller.
    pub id: u64,
    /// The serialized request.
    pub payload: Vec<u8>,
    /// When the request was last sent, or submitted if it never was.
    pub sent_at: i64,
    /// How often it has been sent again.
    pub retries: u32,
    /// Where the request stands.
    pub phase: Phase,
}

/// What became of a submitted request.
#[derive(Clone, Copy, Debug, PartialEq, Eq, Structural)]
pub enum Submitted {
    /// It goes out now, with the given salt.
    Sent { salt: i64 },
    /// It waits for salts; `request_salts` tells whether the server has to
    /// be asked for them now.
    Queued { request_salts: bool },
    /// A request with this identifier is in flight already; nothing
    /// changed.
    Duplicate,
}

/// What arriving salts set in motion.
#[derive(Debug)]
pub struct Released {
    /// The salt that the released requests carry, if any salt is valid.
    pub salt: Option<i64>,
    /// The requests that go out now, in the order of their submission.
    pub ids: Vec<u64>,
    /// Whether the server has to be asked for salts again.
    pub request_salts: bool,
}

/// Whether a request with the identifier `id` is in flight.
pub open spec fn in_table(reqs: Seq<InFlight>, id: u64) -> bool {
    exists|i: int| 0 <= i < reqs.len() && (#[trigger] reqs[i]).id == id
}

/// The index of a request with the identifier `id`.
pub open spec fn index_of(reqs: Seq<InFlight>, id: u64) -> int {
    choose|i: int| 0 <= i < reqs.len() && (#[trigger] reqs[i]).id == id
}

/// Whether no identifier is in flight twice.
pub open spec fn distinct(reqs: Seq<InFlight>) -> bool {
    forall|i: int, j: int|
        0 <= i < j < reqs.len() ==> (#[trigger] reqs[i]).id != (#[trigger] reqs[j]).id
}

/// Whether some request waits for salts.
pub open spec fn any_pending(reqs: Seq<InFlight>) -> bool {
    exists|i: int| 0 <= i < reqs.len() && (#[trigger] reqs[i]).phase is Pending
}

/// The request `e` as sent at `now` with `salt`.
pub open spec fn sent_with(e: InFlight, salt: i64, now: i64) -> InFlight {
    InFlight {
        id: e.id,
        payload: e.payload,
        sent_at: now,
        retries: e.retries,
        phase: Phase::Sent { salt },
    }
}

/// The table after every waiting request has been sent at `now` with
/// `salt`; the others are as they were.
pub open spec fn release_all(reqs: Seq<InFlight>, salt: i64, now: i64) -> Seq<InFlight> {
    Seq::new(
        reqs.len(),
        |i: int|
            if reqs[i].phase is Pending {
                sent_with(reqs[i], salt, now)
            } else {
                reqs[i]
            },
    )
}

/// The identifiers of the waiting requests, in the order of the table.
pub open spec fn pending_ids(reqs: Seq<InFlight>) -> Seq<u64>
    decreases reqs.len(),
{
    if reqs.len() == 0 {
        Seq::empty()
    } else if reqs.last().phase is Pending {
        pending_ids(reqs.drop_last()).push(reqs.last().id)
    } else {
        pending_ids(reqs.drop_last())
    }
}

/// Where identifiers are distinct, the request holding one is found at one
/// index only.
pub proof fn lemma_index_of(reqs: Seq<InFlight>, i: int)
    requires
        distinct(reqs),
        0 <= i < reqs.len(),
    ensures
        in_table(reqs, reqs[i].id),
        index_of(reqs, reqs[i].id) == i,
{
    let p = index_of(reqs, reqs[i].id);
    assert(0 <= p < reqs.len() && reqs[p].id == reqs[i].id);
    if p < i {
        assert(reqs[p].id != reqs[i].id);
    } else if i < p {
        assert(reqs[i].id != reqs[p].id);
    }
}

/// Once salts have released the table, no request is left waiting: each
/// one that waited has been sent with the salt, and the others are
/// untouched.
pub proof fn lemma_release_leaves_none_waiting(reqs: Seq<InFlight>, salt: i64, now: i64)
    ensures
        !any_pending(release_all(reqs, salt, now)),
        release_all(reqs, salt, now).len() == reqs.len(),
        forall|i: int|
            0 <= i < reqs.len() && (#[trigger] reqs[i]).phase is Pending ==> release_all(
                reqs,
                salt,
                now,
            )[i] == sent_with(reqs[i], salt, now),
        forall|i: int|
            0 <= i < reqs.len() && !((#[trigger] reqs[i]).phase is Pending) ==> release_all(
                reqs,
                salt,
                now,
            )[i] == reqs[i],
        distinct(reqs) ==> distinct(release_all(reqs, salt, now)),
{
    let after = release_all(reqs, salt, now);
    assert forall|i: int| 0 <= i < after.len() implies !((#[trigger] after[i]).phase
        is Pending) by {}
    assert forall|i: int| 0 <= i < after.len() implies (#[trigger] after[i]).id == reqs[i].id by {}
    if distinct(reqs) {
        assert forall|i: int, j: int| 0 <= i < j < after.len() implies (#[trigger] after[i]).id != (
        #[trigger] after[j]).id by {
            assert(reqs[i].id != reqs[j].id);
        }
    }
}

/// How often a request is sent again after failures in transit.
pub const MAX_RETRIES: u32 = 5;

/// The delay before the first retry, in seconds.
pub const BASE_DELAY: i64 = 1;

/// The longest delay before a retry, in seconds.
pub const MAX_DELAY: i64 = 60;

/// The delay before retry number `retries`, counting from 0: it doubles
/// with every retry and stops growing at `MAX_DELAY`.
pub open spec fn backoff(retries: nat) -> int
    decreases retries,
{
    if retries == 0 {
        BASE_DELAY as int
    } else if 2 * backoff((retries - 1) as nat) > MAX_DELAY {
        MAX_DELAY as int
    } else {
        2 * backoff((retries - 1) as nat)
    }
}

/// The time `delay` seconds after `now`, or the last representable time.
pub open spec fn time_after(now: i64, delay: int) -> i64 {
    if now + delay > i64::MAX {
        i64::MAX
    } else {
        (now + delay) as i64
    }
}

/// The delay lies between the base and the bound, and once it has reached
/// the bound it stays there.
pub proof fn lemma_backoff_bounded(i: nat, j: nat)
    requires
        i <= j,
    ensures
        BASE_DELAY <= backoff(i) <= backoff(j) <= MAX_DELAY,
        backoff(i) == MAX_DELAY ==> backoff(j) == MAX_DELAY,
    decreases j,
{
    if j > 0 {
        if i < j {
            lemma_backoff_bounded(i, (j - 1) as nat);
        } else {
            lemma_backoff_bounded((i - 1) as nat, (j - 1) as nat);
        }
    }
}

/// Computes the delay before retry number `retries`.
pub fn backoff_delay(retries: u32) -> (r: i64)
    ensures
        r == backoff(retries as nat),
        BASE_DELAY <= r <= MAX_DELAY,
{
    let mut delay: i64 = BASE_DELAY;
    let mut i: u32 = 0;
    while i < retries && delay < MAX_DELAY
        invariant
            i <= retries,
            delay == backoff(i as nat),
            BASE_DELAY <= delay <= MAX_DELAY,
        decreases retries - i,
    {
        delay = if 2 * delay > MAX_DELAY {
            MAX_DELAY
        } else {
            2 * delay
        };
        i += 1;
    }
    proof {
        lemma_backoff_bounded(i as nat, retries as nat);
    }
    delay
}

/// What became of a request that failed in transit.
#[derive(Clone, Copy, Debug, PartialEq, Eq, Structural)]
pub enum Retry {
    /// It is to be sent again at the given time.
    At { resend_at: i64 },
    /// It has failed for good and is no longer in flight.
    GivenUp,
    /// No request that has been sent bears this identifier; nothing
    /// changed.
    Unmatched,
}

/// What became of a request that was to be sent again.
#[derive(Clone, Copy, Debug, PartialEq, Eq, Structural)]
pub enum Resent {
    /// It goes out now, with the given salt.
    Sent { salt: i64 },
    /// It waits for salts; `request_salts` tells whether the server has to
    /// be asked for them now.
    Queued { request_salts: bool },
    /// The identifier names no request in the phase that the event
    /// belongs to, or its time has not come; nothing changed.
    Unmatched,
}

/// The table without the request that has the identifier `id`, if there
/// is one.
pub open spec fn dropped(reqs: Seq<InFlight>, id: u64) -> Seq<InFlight> {
    if in_table(reqs, id) {
        reqs.remove(index_of(reqs, id))
    } else {
        reqs
    }
}

/// The request `e` in another phase.
pub open spec fn in_phase(e: InFlight, phase: Phase) -> InFlight {
    InFlight { id: e.id, payload: e.payload, sent_at: e.sent_at, retries: e.retries, phase }
}

/// The request `e` waiting for its retry number `e.retries`, counted from
/// 0, after a failure at `now`.
pub open spec fn retrying(e: InFlight, now: i64) -> InFlight {
    InFlight {
        id: e.id,
        payload: e.payload,
        sent_at: e.sent_at,
        retries: (e.retries + 1) as u32,
        phase: Phase::Retrying { resend_at: time_after(now, backoff(e.retries as nat)) },
    }
}

/// Whether the request has gone out and is awaiting its answer.
pub open spec fn on_the_wire(e: InFlight) -> bool {
    e.phase is Sent || e.phase is Acked
}

/// The salt that a request on the wire carries.
pub open spec fn salt_of(e: InFlight) -> i64 {
    match e.phase {
        Phase::Sent { salt } => salt,
        Phase::Acked { salt } => salt,
        _ => 0,
    }
}

/// Taking a request out keeps the identifiers distinct and leaves no
/// request waiting that did not wait before.
pub proof fn lemma_take_out(reqs: Seq<InFlight>, i: int)
    requires
        distinct(reqs),
        0 <= i < reqs.len(),
    ensures
        distinct(reqs.remove(i)),
        !in_table(reqs.remove(i), reqs[i].id),
        any_pending(reqs.remove(i)) ==> any_pending(reqs),
{
    let r = reqs.remove(i);
    assert forall|a: int| 0 <= a < r.len() implies #[trigger] r[a] == reqs[if a < i {
        a
    } else {
        a + 1
    }] by {}
    assert forall|a: int, b: int| 0 <= a < b < r.len() implies (#[trigger] r[a]).id != (
    #[trigger] r[b]).id by {
        let a2 = if a < i {
            a
        } else {
            a + 1
        };
        let b2 = if b < i {
            b
        } else {
            b + 1
        };
        assert(r[a] == reqs[a2] && r[b] == reqs[b2]);
    }
    assert forall|a: int| 0 <= a < r.len() implies (#[trigger] r[a]).id != reqs[i].id by {
        let a2 = if a < i {
            a
        } else {
            a + 1
        };
        assert(r[a] == reqs[a2]);
    }
    if any_pending(r) {
        let w = choose|w: int| 0 <= w < r.len() && (#[trigger] r[w]).phase is Pending;
        let w2 = if w < i {
            w
        } else {
            w + 1
        };
        assert(r[w] == reqs[w2]);
        assert(reqs[w2].phase is Pending);
    }
}

/// Replacing a request by one with the same identifier keeps the
/// identifiers distinct; if the new one does not wait, no request waits
/// that did not wait before.
pub proof fn lemma_replace(reqs: Seq<InFlight>, i: int, e: InFlight)
    requires
        distinct(reqs),
        0 <= i < reqs.len(),
        e.id == reqs[i].id,
    ensures
        distinct(reqs.update(i, e)),
        reqs.remove(i).insert(i, e) == reqs.update(i, e),
        !(e.phase is Pending) && any_pending(reqs.update(i, e)) ==> any_pending(reqs),
{
    let r = reqs.update(i, e);
    assert(reqs.remove(i).insert(i, e) =~= r);
    assert forall|a: int, b: int| 0 <= a < b < r.len() implies (#[trigger] r[a]).id != (
    #[trigger] r[b]).id by {
        assert(r[a].id == reqs[a].id && r[b].id == reqs[b].id);
    }
    if !(e.phase is Pending) && any_pending(r) {
        let w = choose|w: int| 0 <= w < r.len() && (#[trigger] r[w]).phase is Pending;
        assert(w != i);
        assert(reqs[w].phase is Pending);
    }
}

/// No request waits for ever: as soon as the server's salts include one
/// whose window has not ended, ingesting them yields a current salt, and
/// releasing the table with it leaves no request waiting, however many
/// were submitted while no salt was valid.
pub proof fn lemma_valid_salt_releases_all(
    pool: Seq<Salt>,
    new_salts: Seq<Salt>,
    k: int,
    reqs: Seq<InFlight>,
    now: i64,
)
    requires
        sorted(pool),
        unique(pool),
        0 <= k < new_salts.len(),
        new_salts[k].valid_until >= now,
    ensures
        current(merged_all(pool, new_salts), now) matches Some(s) && !any_pending(
            release_all(reqs, s.id, now),
        ) && release_all(reqs, s.id, now).len() == reqs.len(),
{
    lemma_valid_salt_is_picked(pool, new_salts, k, now);
    let s = current(merged_all(pool, new_salts), now)->0;
    lemma_release_leaves_none_waiting(reqs, s.id, now);
}

/// The requests in flight together with the salts of the session.
pub struct RequestDispatcher {
    salts: SaltStore,
    requests: Vec<InFlight>,
    refresh_outstanding: bool,
}

impl RequestDispatcher {
    /// The salts held, earliest window first.
    pub closed spec fn salts(&self) -> Seq<Salt> {
        self.salts@
    }

    /// The requests in flight, in the order of their submission.
    pub closed spec fn requests(&self) -> Seq<InFlight> {
        self.requests@
    }

    /// Whether the server has been asked for salts and has not answered.
    pub closed spec fn refresh_outstanding(&self) -> bool {
        self.refresh_outstanding
    }

    /// The invariant: the salts are ordered and unique, no identifier is in
    /// flight twice, and while a request waits for salts the server has
    /// been asked for them.
    pub open spec fn wf(&self) -> bool {
        &&& sorted(self.salts())
        &&& unique(self.salts())
        &&& distinct(self.requests())
        &&& (any_pending(self.requests()) ==> self.refresh_outstanding())
    }

    /// A dispatcher with the given salts and no request in flight.
    pub fn new(salts: SaltStore) -> (r: Self)
        requires
            salts.wf(),
        ensures
            r.wf(),
            r.salts() == salts@,
            r.requests() == Seq::<InFlight>::empty(),
            !r.refresh_outstanding(),
    {
        RequestDispatcher { salts, requests: Vec::new(), refresh_outstanding: false }
    }

    /// The number of requests in flight.
    pub fn in_flight(&self) -> (r: usize)
        ensures
            r == self.requests().len(),
    {
        self.requests.len()
    }

    /// Whether the server has been asked for salts and has not answered.
    pub fn awaiting_salts(&self) -> (r: bool)
        ensures
            r == self.refresh_outstanding(),
    {
        self.refresh_outstanding
    }

    /// The salts of the session.
    pub fn salt_store(&self) -> (r: &SaltStore)
        ensures
            r@ == self.salts(),
    {
        &self.salts
    }

    /// Where the request with the identifier `id` is in the table.
    pub fn find(&self, id: u64) -> (r: Option<usize>)
        requires
            self.wf(),
        ensures
            r is Some == in_table(self.requests(), id),
            r matches Some(i) ==> i == index_of(self.requests(), id) && i < self.requests().len()
                && self.requests()[i as int].id == id,
    {
        let n = self.requests.len();
        let mut i: usize = 0;
        while i < n && self.requests[i].id != id
            invariant
                i <= n,
                n == self.requests@.len(),
                forall|j: int| 0 <= j < i ==> (#[trigger] self.requests@[j]).id != id,
            decreases n - i,
        {
            i += 1;
        }
        if i < n {
            proof {
                lemma_index_of(self.requests@, i as int);
            }
            Some(i)
        } else {
            None
        }
    }

    /// The request with the identifier `id`, if it is in flight.
    pub fn get(&self, id: u64) -> (r: Option<&InFlight>)
        requires
            self.wf(),
        ensures
            r is Some == in_table(self.requests(), id),
            r matches Some(e) ==> *e == self.requests()[index_of(self.requests(), id)],
    {
        match self.find(id) {
            Some(i) => Some(&self.requests[i]),
            None => None,
        }
    }

    /// Accepts a request. With a valid salt at hand it goes out at once;
    /// without one it is queued and the server is asked for salts, unless
    /// it has been asked already. The call never waits for a salt.
    pub fn submit(&mut self, id: u64, payload: Vec<u8>, now: i64) -> (r: Submitted)
        requires
            old(self).wf(),
        ensures
            final(self).wf(),
            final(self).salts() == old(self).salts(),
            in_table(old(self).requests(), id) ==> {
                &&& r == Submitted::Duplicate
                &&& final(self).requests() == old(self).requests()
                &&& final(self).refresh_outstanding() == old(self).refresh_outstanding()
            },
            !in_table(old(self).requests(), id) ==> match current(old(self).salts(), now) {
                Some(s) => {
                    &&& r == Submitted::Sent { salt: s.id }
                    &&& final(self).requests() == old(self).requests().push(
                        InFlight {
                            id,
                            payload,
                            sent_at: now,
                            retries: 0,
                            phase: Phase::Sent { salt: s.id },
                        },
                    )
                    &&& final(self).refresh_outstanding() == old(self).refresh_outstanding()
                },
                None => {
                    &&& r == Submitted::Queued { request_salts: !old(self).refresh_outstanding() }
                    &&& final(self).requests() == old(self).requests().push(
                        InFlight { id, payload, sent_at: now, retries: 0, phase: Phase::Pending },
                    )
                    &&& final(self).refresh_outstanding()
                },
            },
    {
        if self.find(id).is_some() {
            return Submitted::Duplicate;
        }
        let ghost before = self.requests@;
        match self.salts.pick_current(now) {
            Some(s) => {
                self.requests.push(
                    InFlight {
                        id,
                        payload,
                        sent_at: now,
                        retries: 0,
                        phase: Phase::Sent { salt: s.id },
                    },
                );
                proof {
                    let after = self.requests@;
                    assert forall|i: int| 0 <= i < after.len() && (
                    #[trigger] after[i]).phase is Pending implies before[i].phase is Pending by {}
                }
                Submitted::Sent { salt: s.id }
            },
            None => {
                let request_salts = !self.refresh_outstanding;
                self.requests.push(
                    InFlight { id, payload, sent_at: now, retries: 0, phase: Phase::Pending },
                );
                self.refresh_outstanding = true;
                Submitted::Queued { request_salts }
            },
        }
    }

    /// Merges salts from the server in and sends every waiting request
    /// with the salt that is now current. Where the salts that came are of
    /// no use, the waiting requests stay and the server is asked again.
    pub fn ingest(&mut self, new_salts: &[Salt], now: i64) -> (r: Released)
        requires
            old(self).wf(),
        ensures
            final(self).wf(),
            final(self).salts() == merged_all(old(self).salts(), new_salts@),
            match current(final(self).salts(), now) {
                Some(s) => {
                    &&& r.salt == Some(s.id)
                    &&& r.ids@ == pending_ids(old(self).requests())
                    &&& !r.request_salts
                    &&& final(self).requests() == release_all(old(self).requests(), s.id, now)
                    &&& !final(self).refresh_outstanding()
                },
                None => {
                    &&& r.salt is None
                    &&& r.ids@ == Seq::<u64>::empty()
                    &&& r.request_salts == any_pending(old(self).requests())
                    &&& final(self).requests() == old(self).requests()
                    &&& final(self).refresh_outstanding() == any_pending(old(self).requests())
                },
            },
    {
        self.salts.ingest(new_salts);
        let ghost before = self.requests@;
        let ghost pool = self.salts@;
        let n = self.requests.len();
        let mut ids: Vec<u64> = Vec::new();
        match self.salts.pick_current(now) {
            Some(s) => {
                let mut i: usize = 0;
                while i < n
                    invariant
                        i <= n,
                        n == before.len(),
                        self.requests@.len() == n,
                        self.salts@ == pool,
                        forall|j: int|
                            0 <= j < i ==> (#[trigger] self.requests@[j]) == release_all(
                                before,
                                s.id,
                                now,
                            )[j],
                        forall|j: int| i <= j < n ==> (#[trigger] self.requests@[j]) == before[j],
                        ids@ == pending_ids(before.subrange(0, i as int)),
                    decreases n - i,
                {
                    assert(before.subrange(0, i + 1).drop_last() =~= before.subrange(0, i as int));
                    if let Phase::Pending = self.requests[i].phase {
                        let e = self.requests.remove(i);
                        ids.push(e.id);
                        self.requests.insert(
                            i,
                            InFlight {
                                id: e.id,
                                payload: e.payload,
                                sent_at: now,
                                retries: e.retries,
                                phase: Phase::Sent { salt: s.id },
                            },
                        );
                    }
                    i += 1;
                }
                assert(before.subrange(0, n as int) =~= before);
                assert(self.requests@ =~= release_all(before, s.id, now));
                proof {
                    lemma_release_leaves_none_waiting(before, s.id, now);
                }
                self.refresh_outstanding = false;
                Released { salt: Some(s.id), ids, request_salts: false }
            },
            None => {
                let mut waiting = false;
                let mut i: usize = 0;
                while i < n
                    invariant
                        i <= n,
                        n == before.len(),
                        self.requests@ == before,
                        self.salts@ == pool,
                        waiting == any_pending(before.subrange(0, i as int)),
                    decreases n - i,
                {
                    proof {
                        let head = before.subrange(0, i as int);
                        let next = before.subrange(0, i + 1);
                        if any_pending(head) {
                            let w = choose|w: int|
                                0 <= w < head.len() && (#[trigger] head[w]).phase is Pending;
                            assert(next[w].phase is Pending);
                        }
                        if before[i as int].phase is Pending {
                            assert(next[i as int].phase is Pending);
                        }
                        if any_pending(next) {
                            let w = choose|w: int|
                                0 <= w < next.len() && (#[trigger] next[w]).phase is Pending;
                            if w < i {
                                assert(head[w].phase is Pending);
                            }
                        }
                    }
                    if let Phase::Pending = self.requests[i].phase {
                        waiting = true;
                    }
                    i += 1;
                }
                assert(before.subrange(0, n as int) =~= before);
                self.refresh_outstanding = waiting;
                Released { salt: None, ids, request_salts: waiting }
            },
        }
    }

    /// Drops the salts whose window ended before `now`. The requests in
    /// flight are not touched: one that carries a dropped salt goes on
    /// until the server answers or turns the salt down.
    pub fn expire_salts(&mut self, now: i64)
        requires
            old(self).wf(),
        ensures
            final(self).wf(),
            final(self).salts() == pruned(old(self).salts(), now),
            final(self).requests() == old(self).requests(),
            final(self).refresh_outstanding() == old(self).refresh_outstanding(),
    {
        self.salts.expire_before(now);
    }

    /// Matches a response to its request. A request that has gone out is
    /// resolved and handed back; a response that matches none, or one that
    /// was never sent, is dropped and nothing changes.
    pub fn on_response(&mut self, id: u64) -> (r: Option<InFlight>)
        requires
            old(self).wf(),
        ensures
            final(self).wf(),
            final(self).salts() == old(self).salts(),
            final(self).refresh_outstanding() == old(self).refresh_outstanding(),
            in_table(old(self).requests(), id) && !(old(self).requests()[index_of(
                old(self).requests(),
                id,
            )].phase is Pending) ==> r == Some(
                old(self).requests()[index_of(old(self).requests(), id)],
            ) && final(self).requests() == dropped(old(self).requests(), id),
            !in_table(old(self).requests(), id) || old(self).requests()[index_of(
                old(self).requests(),
                id,
            )].phase is Pending ==> r is None && final(self).requests() == old(self).requests(),
    {
        match self.find(id) {
            Some(i) => {
                if let Phase::Pending = self.requests[i].phase {
                    None
                } else {
                    proof {
                        lemma_take_out(self.requests@, i as int);
                    }
                    Some(self.requests.remove(i))
                }
            },
            None => None,
        }
    }

    /// Notes that the server has acknowledged a request that was sent, and
    /// tells whether there was such a request.
    pub fn on_ack(&mut self, id: u64) -> (r: bool)
        requires
            old(self).wf(),
        ensures
            final(self).wf(),
            final(self).salts() == old(self).salts(),
            final(self).refresh_outstanding() == old(self).refresh_outstanding(),
            r == (in_table(old(self).requests(), id) && old(self).requests()[index_of(
                old(self).requests(),
                id,
            )].phase is Sent),
            r ==> final(self).requests() == old(self).requests().update(
                index_of(old(self).requests(), id),
                in_phase(
                    old(self).requests()[index_of(old(self).requests(), id)],
                    Phase::Acked {
                        salt: salt_of(old(self).requests()[index_of(old(self).requests(), id)]),
                    },
                ),
            ),
            !r ==> final(self).requests() == old(self).requests(),
    {
        match self.find(id) {
            Some(i) => {
                if let Phase::Sent { salt } = self.requests[i].phase {
                    let ghost before = self.requests@;
                    let e = self.requests.remove(i);
                    let acked = InFlight {
                        id: e.id,
                        payload: e.payload,
                        sent_at: e.sent_at,
                        retries: e.retries,
                        phase: Phase::Acked { salt },
                    };
                    proof {
                        lemma_replace(before, i as int, acked);
                    }
                    self.requests.insert(i, acked);
                    true
                } else {
                    false
                }
            },
            None => false,
        }
    }

    /// Gives a request up, on cancellation or when its caller has waited
    /// long enough, and hands it back. Without such a request nothing
    /// changes; a response that arrives later matches nothing.
    pub fn cancel(&mut self, id: u64) -> (r: Option<InFlight>)
        requires
            old(self).wf(),
        ensures
            final(self).wf(),
            final(self).salts() == old(self).salts(),
            final(self).refresh_outstanding() == old(self).refresh_outstanding(),
            final(self).requests() == dropped(old(self).requests(), id),
            !in_table(final(self).requests(), id),
            in_table(old(self).requests(), id) ==> r == Some(
                old(self).requests()[index_of(old(self).requests(), id)],
            ),
            !in_table(old(self).requests(), id) ==> r is None,
    {
        match self.find(id) {
            Some(i) => {
                proof {
                    lemma_take_out(self.requests@, i as int);
                }
                Some(self.requests.remove(i))
            },
            None => None,
        }
    }

    /// Handles a failure in transit of a request that has gone out: it is
    /// scheduled to be sent again after a delay that doubles with every
    /// retry, or given up once it has been retried `MAX_RETRIES` times.
    pub fn on_transport_error(&mut self, id: u64, now: i64) -> (r: Retry)
        requires
            old(self).wf(),
        ensures
            final(self).wf(),
            final(self).salts() == old(self).salts(),
            final(self).refresh_outstanding() == old(self).refresh_outstanding(),
            ({
                let reqs = old(self).requests();
                let i = index_of(reqs, id);
                if in_table(reqs, id) && on_the_wire(reqs[i]) {
                    if reqs[i].retries < MAX_RETRIES {
                        &&& r == Retry::At {
                            resend_at: time_after(now, backoff(reqs[i].retries as nat)),
                        }
                        &&& final(self).requests() == reqs.update(i, retrying(reqs[i], now))
                    } else {
                        &&& r == Retry::GivenUp
                        &&& final(self).requests() == reqs.remove(i)
                    }
                } else {
                    &&& r == Retry::Unmatched
                    &&& final(self).requests() == reqs
                }
            }),
    {
        let i = match self.find(id) {
            Some(i) => i,
            None => {
                return Retry::Unmatched;
            },
        };
        match self.requests[i].phase {
            Phase::Sent { .. } | Phase::Acked { .. } => {},
            _ => {
                return Retry::Unmatched;
            },
        }
        let ghost before = self.requests@;
        proof {
            lemma_take_out(before, i as int);
        }
        let e = self.requests.remove(i);
        if e.retries >= MAX_RETRIES {
            return Retry::GivenUp;
        }
        let delay = backoff_delay(e.retries);
        let resend_at = if now > i64::MAX - delay {
            i64::MAX
        } else {
            now + delay
        };
        let next = InFlight {
            id: e.id,
            payload: e.payload,
            sent_at: e.sent_at,
            retries: e.retries + 1,
            phase: Phase::Retrying { resend_at },
        };
        proof {
            lemma_replace(before, i as int, next);
        }
        self.requests.insert(i, next);
        Retry::At { resend_at }
    }

    /// Sends the request at index `i` again at `now`: with the current
    /// salt, or, without one, back to waiting while the server is asked.
    fn send_again(&mut self, i: usize, now: i64) -> (r: Resent)
        requires
            old(self).wf(),
            i < old(self).requests().len(),
        ensures
            final(self).wf(),
            final(self).salts() == old(self).salts(),
            ({
                let reqs = old(self).requests();
                match current(old(self).salts(), now) {
                    Some(s) => {
                        &&& r == Resent::Sent { salt: s.id }
                        &&& final(self).requests() == reqs.update(
                            i as int,
                            sent_with(reqs[i as int], s.id, now),
                        )
                        &&& final(self).refresh_outstanding() == old(self).refresh_outstanding()
                    },
                    None => {
                        &&& r == Resent::Queued { request_salts: !old(self).refresh_outstanding() }
                        &&& final(self).requests() == reqs.update(
                            i as int,
                            in_phase(reqs[i as int], Phase::Pending),
                        )
                        &&& final(self).refresh_outstanding()
                    },
                }
            }),
    {
        let ghost before = self.requests@;
        let e = self.requests.remove(i);
        match self.salts.pick_current(now) {
            Some(s) => {
                let next = InFlight {
                    id: e.id,
                    payload: e.payload,
                    sent_at: now,
                    retries: e.retries,
                    phase: Phase::Sent { salt: s.id },
                };
                proof {
                    lemma_replace(before, i as int, next);
                }
                self.requests.insert(i, next);
                Resent::Sent { salt: s.id }
            },
            None => {
                let next = InFlight {
                    id: e.id,
                    payload: e.payload,
                    sent_at: e.sent_at,
                    retries: e.retries,
                    phase: Phase::Pending,
                };
                proof {
                    lemma_replace(before, i as int, next);
                }
                self.requests.insert(i, next);
                let request_salts = !self.refresh_outstanding;
                self.refresh_outstanding = true;
                Resent::Queued { request_salts }
            },
        }
    }

    /// Sends a request again whose delay has passed.
    pub fn on_retry_due(&mut self, id: u64, now: i64) -> (r: Resent)
        requires
            old(self).wf(),
        ensures
            final(self).wf(),
            final(self).salts() == old(self).salts(),
            ({
                let reqs = old(self).requests();
                let i = index_of(reqs, id);
                if in_table(reqs, id) && (reqs[i].phase matches Phase::Retrying { resend_at }
                    && resend_at <= now) {
                    match current(old(self).salts(), now) {
                        Some(s) => {
                            &&& r == Resent::Sent { salt: s.id }
                            &&& final(self).requests() == reqs.update(
                                i,
                                sent_with(reqs[i], s.id, now),
                            )
                            &&& final(self).refresh_outstanding() == old(self).refresh_outstanding()
                        },
                        None => {
                            &&& r == Resent::Queued {
                                request_salts: !old(self).refresh_outstanding(),
                            }
                            &&& final(self).requests() == reqs.update(
                                i,
                                in_phase(reqs[i], Phase::Pending),
                            )
                            &&& final(self).refresh_outstanding()
                        },
                    }
                } else {
                    &&& r == Resent::Unmatched
                    &&& final(self).requests() == reqs
                    &&& final(self).refresh_outstanding() == old(self).refresh_outstanding()
                }
            }),
    {
        let i = match self.find(id) {
            Some(i) => i,
            None => {
                return Resent::Unmatched;
            },
        };
        match self.requests[i].phase {
            Phase::Retrying { resend_at } => {
                if resend_at > now {
                    return Resent::Unmatched;
                }
            },
            _ => {
                return Resent::Unmatched;
            },
        }
        self.send_again(i, now)
    }

    /// Handles the server's verdict that the salt of a request is not
    /// valid: the salt is dropped from the store and the request goes out
    /// once more with another one, or waits if none is left.
    pub fn on_bad_salt(&mut self, id: u64, now: i64) -> (r: Resent)
        requires
            old(self).wf(),
        ensures
            final(self).wf(),
            ({
                let reqs = old(self).requests();
                let i = index_of(reqs, id);
                if in_table(reqs, id) && on_the_wire(reqs[i]) {
                    let left = without(old(self).salts(), salt_of(reqs[i]));
                    &&& final(self).salts() == left
                    &&& match current(left, now) {
                        Some(s) => {
                            &&& s.id != salt_of(reqs[i])
                            &&& r == Resent::Sent { salt: s.id }
                            &&& final(self).requests() == reqs.update(
                                i,
                                sent_with(reqs[i], s.id, now),
                            )
                            &&& final(self).refresh_outstanding() == old(self).refresh_outstanding()
                        },
                        None => {
                            &&& r == Resent::Queued {
                                request_salts: !old(self).refresh_outstanding(),
                            }
                            &&& final(self).requests() == reqs.update(
                                i,
                                in_phase(reqs[i], Phase::Pending),
                            )
                            &&& final(self).refresh_outstanding()
                        },
                    }
                } else {
                    &&& r == Resent::Unmatched
                    &&& final(self).salts() == old(self).salts()
                    &&& final(self).requests() == reqs
                    &&& final(self).refresh_outstanding() == old(self).refresh_outstanding()
                }
            }),
    {
        let i = match self.find(id) {
            Some(i) => i,
            None => {
                return Resent::Unmatched;
            },
        };
        let salt = match self.requests[i].phase {
            Phase::Sent { salt } => salt,
            Phase::Acked { salt } => salt,
            _ => {
                return Resent::Unmatched;
            },
        };
        self.salts.invalidate(salt);
        proof {
            let left = self.salts@;
            if left.len() > 0 {
                assert(left[left.len() - 1].id != salt);
            }
        }
        self.send_again(i, now)
    }

    /// Handles the failure of a request for salts, and tells whether the
    /// server has to be asked again: it has, as long as a request waits.
    pub fn on_refresh_failed(&mut self) -> (r: bool)
        requires
            old(self).wf(),
        ensures
            final(self).wf(),
            final(self).salts() == old(self).salts(),
            final(self).requests() == old(self).requests(),
            r == any_pending(old(self).requests()),
            final(self).refresh_outstanding() == r,
    {
        let n = self.requests.len();
        let mut waiting = false;
        let mut i: usize = 0;
        while i < n && !waiting
            invariant
                i <= n,
                n == self.requests@.len(),
                waiting ==> any_pending(self.requests@),
                !waiting ==> forall|j: int|
                    0 <= j < i ==> !((#[trigger] self.requests@[j]).phase is Pending),
            decreases n - i,
        {
            if let Phase::Pending = self.requests[i].phase {
                waiting = true;
            }
            i += 1;
        }
        self.refresh_outstanding = waiting;
        waiting
    }
}

} // verus!
