//! The result cache: a time-bounded memo of query results in which one
//! caller computes a missing result and the others wait for it.
//!
//! The cache is a state machine over an explicit clock. A caller asks
//! `begin` with its key and the time. The ticket says whether the result
//! is there, whether this caller is to compute it and report back through
//! `complete` or `fail`, or whether another caller is computing it. In
//! the last case the caller is counted as a waiter; when it is woken it
//! asks `resume`, and is handed what the leader reported, be it a result
//! or a failure, or is told that the leader ran out of time.

use crate::error::CacheComputeError;
use crate::page::Record;
use vstd::prelude::*;
use vstd::string::*;

verus! {

/// Something filed under a key.
pub trait Keyed {
    spec fn key(self) -> Seq<char>;
}

/// Mathematical model of a stored result, with the number of waiters
/// that have yet to collect it.
pub struct EntryModel<V> {
    pub key: Seq<char>,
    pub value: V,
    pub inserted_at: int,
    pub ttl: int,
    pub awaited: u64,
}

/// Mathematical model of a computation under way, with the number of
/// callers that wait for it.
pub struct FlightModel {
    pub key: Seq<char>,
    pub started_at: int,
    pub waiters: u64,
}

/// Mathematical model of a reported failure, with the number of waiters
/// that have yet to collect it.
pub struct FailureModel<E> {
    pub key: Seq<char>,
    pub cause: E,
    pub owed: u64,
}

impl<V> Keyed for EntryModel<V> {
    open spec fn key(self) -> Seq<char> {
        self.key
    }
}

impl Keyed for FlightModel {
    open spec fn key(self) -> Seq<char> {
        self.key
    }
}

impl<E> Keyed for FailureModel<E> {
    open spec fn key(self) -> Seq<char> {
        self.key
    }
}

/// Something is filed under `key`.
pub open spec fn filed<T: Keyed>(s: Seq<T>, key: Seq<char>) -> bool {
    exists|i: int| 0 <= i < s.len() && (#[trigger] s[i]).key() == key
}

/// Where something is filed under `key`.
pub open spec fn slot<T: Keyed>(s: Seq<T>, key: Seq<char>) -> int {
    choose|i: int| 0 <= i < s.len() && (#[trigger] s[i]).key() == key
}

/// Nothing is filed twice under one key.
pub open spec fn distinct<T: Keyed>(s: Seq<T>) -> bool {
    forall|i: int, j: int| 0 <= i < j < s.len() ==> (#[trigger] s[i]).key() != (#[trigger] s[j]).key()
}

/// The list without what is filed under `key`.
pub open spec fn without<T: Keyed>(s: Seq<T>, key: Seq<char>) -> Seq<T> {
    if filed(s, key) {
        s.remove(slot(s, key))
    } else {
        s
    }
}

/// What is filed under a key is found where it is.
pub proof fn lemma_slot<T: Keyed>(s: Seq<T>, key: Seq<char>, i: int)
    requires
        distinct(s),
        0 <= i < s.len(),
        s[i].key() == key,
    ensures
        filed(s, key),
        slot(s, key) == i,
{
    let j = slot(s, key);
    if i < j {
        assert(s[i].key() != s[j].key());
    } else if j < i {
        assert(s[j].key() != s[i].key());
    }
}

/// Taking out what is filed under a key leaves the rest as it was.
pub proof fn lemma_without<T: Keyed>(s: Seq<T>, key: Seq<char>)
    requires
        distinct(s),
    ensures
        distinct(without(s, key)),
        !filed(without(s, key), key),
        without(s, key).len() <= s.len(),
        forall|i: int| 0 <= i < without(s, key).len() ==> s.contains(#[trigger] without(s, key)[i]),
        forall|i: int|
            0 <= i < s.len() && (#[trigger] s[i]).key() != key ==> without(s, key).contains(s[i]),
{
    let w = without(s, key);
    if filed(s, key) {
        let p = slot(s, key);
        assert forall|i: int| 0 <= i < w.len() implies (#[trigger] w[i]).key() != key && s.contains(
            w[i],
        ) by {
            let src = if i < p {
                i
            } else {
                i + 1
            };
            assert(w[i] == s[src]);
            if src < p {
                assert(s[src].key() != s[p].key());
            } else {
                assert(s[p].key() != s[src].key());
            }
        }
        assert forall|i: int, j: int| 0 <= i < j < w.len() implies (#[trigger] w[i]).key() != (
        #[trigger] w[j]).key() by {
            let si = if i < p {
                i
            } else {
                i + 1
            };
            let sj = if j < p {
                j
            } else {
                j + 1
            };
            assert(w[i] == s[si]);
            assert(w[j] == s[sj]);
            assert(s[si].key() != s[sj].key());
        }
        assert forall|i: int| 0 <= i < s.len() && (#[trigger] s[i]).key() != key implies w.contains(
            s[i],
        ) by {
            let dst = if i < p {
                i
            } else {
                i - 1
            };
            assert(w[dst] == s[i]);
        }
    } else {
        assert forall|i: int| 0 <= i < s.len() implies s.contains(#[trigger] s[i]) by {}
    }
}

/// Replacing what is filed under a key by something under the same key
/// keeps every key where it was.
pub proof fn lemma_update<T: Keyed>(s: Seq<T>, i: int, x: T)
    requires
        distinct(s),
        0 <= i < s.len(),
        x.key() == s[i].key(),
    ensures
        distinct(s.update(i, x)),
        filed(s.update(i, x), x.key()),
        slot(s.update(i, x), x.key()) == i,
{
    let u = s.update(i, x);
    assert forall|a: int, b: int| 0 <= a < b < u.len() implies (#[trigger] u[a]).key() != (
    #[trigger] u[b]).key() by {
        assert(s[a].key() != s[b].key());
    }
    lemma_slot(u, x.key(), i);
}

/// Filing something under a key that was free keeps the rest where it
/// was.
pub proof fn lemma_push<T: Keyed>(s: Seq<T>, x: T)
    requires
        distinct(s),
        !filed(s, x.key()),
    ensures
        distinct(s.push(x)),
        filed(s.push(x), x.key()),
        slot(s.push(x), x.key()) == s.len(),
{
    let u = s.push(x);
    assert forall|a: int, b: int| 0 <= a < b < u.len() implies (#[trigger] u[a]).key() != (
    #[trigger] u[b]).key() by {
        if b == s.len() {
            assert(s[a].key() != x.key());
        } else {
            assert(s[a].key() != s[b].key());
        }
    }
    lemma_slot(u, x.key(), s.len() as int);
}

/// Mathematical model of the cache: its settings, the stored results from
/// the oldest to the newest, the computations under way, and the
/// failures that waiters have yet to collect.
pub struct CacheModel<V, E> {
    pub capacity: int,
    pub default_ttl: int,
    pub leader_timeout: int,
    pub entries: Seq<EntryModel<V>>,
    pub in_flight: Seq<FlightModel>,
    pub failures: Seq<FailureModel<E>>,
}

/// What a caller is to do about its key.
#[derive(Clone, Copy, Debug, PartialEq, Eq, Structural)]
pub enum Ticket {
    /// A live result is stored: read it.
    Hit,
    /// Another caller is computing the result, and this caller now
    /// counts as one of its waiters: wait, then ask `resume`.
    Wait,
    /// Compute the result and report it.
    Lead,
}

/// What a waiter finds when it asks again.
#[derive(Clone, Copy, Debug, PartialEq, Eq, Structural)]
pub enum Resumed {
    /// The leader reported a result, and this waiter has collected it.
    Ready,
    /// The leader reported a failure, and this waiter has collected it.
    Failed,
    /// The leader is still within its time: wait on.
    Waiting,
    /// The leader ran out of time without reporting: the wait is over,
    /// and the caller may begin anew.
    Abandoned,
}

/// What is there for a waiter to collect.
pub enum Outcome<V, E> {
    Value(V),
    Failure(E),
    Nothing,
}

/// The entry has not expired at `now`.
pub open spec fn is_live<V>(entry: EntryModel<V>, now: int) -> bool {
    now < entry.inserted_at + entry.ttl
}

/// One more, unless the count is full.
pub open spec fn one_more(n: u64) -> u64 {
    if n < u64::MAX {
        (n + 1) as u64
    } else {
        n
    }
}

/// The sum, or the largest count where the sum does not fit.
pub open spec fn together(a: u64, b: u64) -> u64 {
    if a + b <= u64::MAX {
        (a + b) as u64
    } else {
        u64::MAX
    }
}

/// The first position from `i` on of a result that no waiter has yet to
/// collect, or the length of the list where there is none.
pub open spec fn first_free_from<V>(entries: Seq<EntryModel<V>>, i: int) -> int
    decreases entries.len() - i,
{
    if i < 0 || i >= entries.len() {
        entries.len() as int
    } else if entries[i].awaited == 0 {
        i
    } else {
        first_free_from(entries, i + 1)
    }
}

/// The stored results cut back to the capacity by one: where they exceed
/// it, the oldest result that no waiter has yet to collect goes; where
/// every result is awaited, all stay.
pub open spec fn trimmed<V>(entries: Seq<EntryModel<V>>, capacity: int) -> Seq<EntryModel<V>> {
    let i = first_free_from(entries, 0);
    if entries.len() > capacity && i < entries.len() {
        entries.remove(i)
    } else {
        entries
    }
}

impl<V, E> CacheModel<V, E> {
    /// A leader has some time to report; no key is stored twice,
    /// computed twice, or owed two failures; and every failure on file
    /// is owed to some waiter.
    pub open spec fn wf(self) -> bool {
        &&& 0 <= self.capacity
        &&& 0 <= self.default_ttl
        &&& 0 < self.leader_timeout
        &&& distinct(self.entries)
        &&& distinct(self.in_flight)
        &&& distinct(self.failures)
        &&& forall|i: int| 0 <= i < self.failures.len() ==> (#[trigger] self.failures[i]).owed > 0
    }

    /// The result stored for `key`, unless it has expired at `now`.
    pub open spec fn live_value(self, key: Seq<char>, now: int) -> Option<V> {
        if filed(self.entries, key) && is_live(self.entries[slot(self.entries, key)], now) {
            Some(self.entries[slot(self.entries, key)].value)
        } else {
            None
        }
    }

    /// A caller that began computing the result for `key` is still within
    /// its time at `now`.
    pub open spec fn leader_active(self, key: Seq<char>, now: int) -> bool {
        filed(self.in_flight, key) && now < self.in_flight[slot(self.in_flight, key)].started_at
            + self.leader_timeout
    }

    /// The number of callers that wait for the computation for `key`.
    pub open spec fn waiters(self, key: Seq<char>) -> u64 {
        if filed(self.in_flight, key) {
            self.in_flight[slot(self.in_flight, key)].waiters
        } else {
            0
        }
    }

    /// The number of waiters that have yet to collect the result stored
    /// for `key`.
    pub open spec fn awaited(self, key: Seq<char>) -> u64 {
        if filed(self.entries, key) {
            self.entries[slot(self.entries, key)].awaited
        } else {
            0
        }
    }

    /// The number of waiters that have yet to collect the failure
    /// reported for `key`.
    pub open spec fn owed(self, key: Seq<char>) -> u64 {
        if filed(self.failures, key) {
            self.failures[slot(self.failures, key)].owed
        } else {
            0
        }
    }

    /// What a waiter for `key` collects next: a result that waiters have
    /// yet to collect, whether expired or not, else a failure, else
    /// nothing.
    pub open spec fn outcome(self, key: Seq<char>) -> Outcome<V, E> {
        if self.awaited(key) > 0 {
            Outcome::Value(self.entries[slot(self.entries, key)].value)
        } else if filed(self.failures, key) {
            Outcome::Failure(self.failures[slot(self.failures, key)].cause)
        } else {
            Outcome::Nothing
        }
    }

    /// A request for `key` arrives at `now`.
    ///
    /// A live result is a hit and nothing changes. Otherwise, while a
    /// leader is within its time, the caller is counted among its
    /// waiters. Otherwise the caller becomes the leader: an expired
    /// result for the key that no waiter has yet to collect is reclaimed,
    /// and a leader that ran out of time is replaced, its waiters now
    /// waiting for the new one.
    pub open spec fn begin(self, key: Seq<char>, now: int) -> (CacheModel<V, E>, Ticket) {
        if self.live_value(key, now) is Some {
            (self, Ticket::Hit)
        } else if self.leader_active(key, now) {
            let i = slot(self.in_flight, key);
            let flight = self.in_flight[i];
            (
                CacheModel {
                    in_flight: self.in_flight.update(
                        i,
                        FlightModel { waiters: one_more(flight.waiters), ..flight },
                    ),
                    ..self
                },
                Ticket::Wait,
            )
        } else {
            (
                CacheModel {
                    entries: if self.awaited(key) == 0 {
                        without(self.entries, key)
                    } else {
                        self.entries
                    },
                    in_flight: if filed(self.in_flight, key) {
                        let i = slot(self.in_flight, key);
                        self.in_flight.update(
                            i,
                            FlightModel { started_at: now, ..self.in_flight[i] },
                        )
                    } else {
                        self.in_flight.push(FlightModel { key, started_at: now, waiters: 0 })
                    },
                    ..self
                },
                Ticket::Lead,
            )
        }
    }

    /// A waiter for `key` asks again at `now`.
    ///
    /// A result that waiters have yet to collect is collected: one
    /// waiter fewer awaits it, and once none does while the cache is over
    /// its capacity, the result goes. Else a failure on file is
    /// collected, and goes once every waiter has it. Else the waiter
    /// waits on while the leader is within its time. Else the wait is
    /// over, and the leader that ran out of time has one waiter fewer.
    pub open spec fn resume(self, key: Seq<char>, now: int) -> (CacheModel<V, E>, Resumed) {
        if self.awaited(key) > 0 {
            let i = slot(self.entries, key);
            let entry = self.entries[i];
            let left = (entry.awaited - 1) as u64;
            (
                CacheModel {
                    entries: if left == 0 && self.entries.len() > self.capacity {
                        self.entries.remove(i)
                    } else {
                        self.entries.update(i, EntryModel { awaited: left, ..entry })
                    },
                    ..self
                },
                Resumed::Ready,
            )
        } else if filed(self.failures, key) {
            let i = slot(self.failures, key);
            let failure = self.failures[i];
            (
                CacheModel {
                    failures: if failure.owed > 1 {
                        self.failures.update(
                            i,
                            FailureModel { owed: (failure.owed - 1) as u64, ..failure },
                        )
                    } else {
                        self.failures.remove(i)
                    },
                    ..self
                },
                Resumed::Failed,
            )
        } else if self.leader_active(key, now) {
            (self, Resumed::Waiting)
        } else {
            (
                CacheModel { in_flight: self.one_waiter_fewer(key), ..self },
                Resumed::Abandoned,
            )
        }
    }

    /// The computations under way with one waiter fewer for `key`.
    pub open spec fn one_waiter_fewer(self, key: Seq<char>) -> Seq<FlightModel> {
        if self.waiters(key) > 0 {
            let i = slot(self.in_flight, key);
            let flight = self.in_flight[i];
            self.in_flight.update(i, FlightModel { waiters: (flight.waiters - 1) as u64, ..flight })
        } else {
            self.in_flight
        }
    }

    /// A waiter for `key` gives up without asking again, as when its
    /// request is cancelled: what it would have collected is collected
    /// unread, and while the leader is still at work the leader has one
    /// waiter fewer. The computation goes on for the others.
    pub open spec fn withdraw(self, key: Seq<char>) -> CacheModel<V, E> {
        if self.outcome(key) is Nothing {
            CacheModel { in_flight: self.one_waiter_fewer(key), ..self }
        } else {
            self.resume(key, 0).0
        }
    }

    /// The result that `complete` files for `key`.
    pub open spec fn entry_for(self, key: Seq<char>, value: V, now: int, ttl: int) -> EntryModel<V> {
        EntryModel {
            key,
            value,
            inserted_at: now,
            ttl,
            awaited: together(self.waiters(key), self.awaited(key)),
        }
    }

    /// The leader for `key` reports its result at `now`.
    ///
    /// The result replaces what was stored for the key and becomes the
    /// newest entry, awaited by the leader's waiters and by those who had
    /// yet to collect what it replaces. Where the results then exceed the
    /// capacity, the oldest one that no waiter has yet to collect goes,
    /// whether expired or not.
    pub open spec fn complete(self, key: Seq<char>, value: V, now: int, ttl: int) -> CacheModel<
        V,
        E,
    > {
        CacheModel {
            entries: trimmed(
                without(self.entries, key).push(self.entry_for(key, value, now, ttl)),
                self.capacity,
            ),
            in_flight: without(self.in_flight, key),
            ..self
        }
    }

    /// The leader for `key` reports that its computation failed with
    /// `cause`. Nothing is stored as a result; where callers wait for the
    /// leader, the failure is put on file for each of them to collect.
    pub open spec fn fail(self, key: Seq<char>, cause: E) -> CacheModel<V, E> {
        CacheModel {
            in_flight: without(self.in_flight, key),
            failures: if self.waiters(key) > 0 {
                without(self.failures, key).push(
                    FailureModel { key, cause, owed: together(self.waiters(key), self.owed(key)) },
                )
            } else {
                self.failures
            },
            ..self
        }
    }

    /// How many of the requests for `key` that arrive at `times`, one
    /// after the other with no report in between, are told to compute.
    pub open spec fn leads(self, key: Seq<char>, times: Seq<int>) -> nat
        decreases times.len(),
    {
        if times.len() == 0 {
            0
        } else {
            let (next, ticket) = self.begin(key, times[0]);
            let rest = next.leads(key, times.drop_first());
            if ticket == Ticket::Lead {
                rest + 1
            } else {
                rest
            }
        }
    }

    /// A request leaves the cache well formed.
    pub proof fn lemma_begin_wf(self, key: Seq<char>, now: int)
        requires
            self.wf(),
        ensures
            self.begin(key, now).0.wf(),
    {
        lemma_without(self.entries, key);
        if filed(self.in_flight, key) {
            let i = slot(self.in_flight, key);
            let flight = self.in_flight[i];
            lemma_update(
                self.in_flight,
                i,
                FlightModel { waiters: one_more(flight.waiters), ..flight },
            );
            lemma_update(self.in_flight, i, FlightModel { started_at: now, ..flight });
        } else {
            lemma_push(self.in_flight, FlightModel { key, started_at: now, waiters: 0 });
        }
    }

    /// A waiter that asks again leaves the cache well formed.
    pub proof fn lemma_resume_wf(self, key: Seq<char>, now: int)
        requires
            self.wf(),
        ensures
            self.resume(key, now).0.wf(),
    {
        if filed(self.entries, key) {
            let i = slot(self.entries, key);
            let entry = self.entries[i];
            lemma_update(
                self.entries,
                i,
                EntryModel { awaited: (entry.awaited - 1) as u64, ..entry },
            );
            lemma_without(self.entries, key);
        }
        if filed(self.failures, key) {
            let i = slot(self.failures, key);
            let failure = self.failures[i];
            let less = FailureModel { owed: (failure.owed - 1) as u64, ..failure };
            lemma_update(self.failures, i, less);
            lemma_without(self.failures, key);
            let next = self.resume(key, now).0.failures;
            assert forall|j: int| 0 <= j < next.len() implies (#[trigger] next[j]).owed > 0 by {
                if self.awaited(key) > 0 {
                } else if failure.owed > 1 {
                    if j != i {
                        assert(next[j] == self.failures[j]);
                    }
                } else {
                    assert(self.failures.contains(next[j]));
                }
            }
        }
        if filed(self.in_flight, key) {
            let i = slot(self.in_flight, key);
            let flight = self.in_flight[i];
            lemma_update(
                self.in_flight,
                i,
                FlightModel { waiters: (flight.waiters - 1) as u64, ..flight },
            );
        }
    }

    /// A waiter that gives up leaves the cache well formed.
    pub proof fn lemma_withdraw_wf(self, key: Seq<char>)
        requires
            self.wf(),
        ensures
            self.withdraw(key).wf(),
    {
        self.lemma_resume_wf(key, 0);
        if filed(self.in_flight, key) {
            let i = slot(self.in_flight, key);
            let flight = self.in_flight[i];
            lemma_update(
                self.in_flight,
                i,
                FlightModel { waiters: (flight.waiters - 1) as u64, ..flight },
            );
        }
    }

    /// A reported result leaves the cache well formed.
    pub proof fn lemma_complete_wf(self, key: Seq<char>, value: V, now: int, ttl: int)
        requires
            self.wf(),
        ensures
            self.complete(key, value, now, ttl).wf(),
    {
        lemma_without(self.entries, key);
        lemma_without(self.in_flight, key);
        let stored = without(self.entries, key).push(self.entry_for(key, value, now, ttl));
        lemma_push(without(self.entries, key), self.entry_for(key, value, now, ttl));
        lemma_first_free(stored, 0);
        let i = first_free_from(stored, 0);
        if stored.len() > self.capacity && i < stored.len() {
            lemma_remove_distinct(stored, i);
        }
    }

    /// A reported failure leaves the cache well formed.
    pub proof fn lemma_fail_wf(self, key: Seq<char>, cause: E)
        requires
            self.wf(),
        ensures
            self.fail(key, cause).wf(),
    {
        lemma_without(self.in_flight, key);
        lemma_without(self.failures, key);
        if self.waiters(key) > 0 {
            let filed = FailureModel {
                key,
                cause,
                owed: together(self.waiters(key), self.owed(key)),
            };
            lemma_push(without(self.failures, key), filed);
            let next = self.fail(key, cause).failures;
            assert forall|j: int| 0 <= j < next.len() implies (#[trigger] next[j]).owed > 0 by {
                if j < next.len() - 1 {
                    assert(self.failures.contains(without(self.failures, key)[j]));
                }
            }
        }
    }
}

/// Where `first_free_from` stops: every result before it is awaited, and
/// the one it stops at is not.
pub proof fn lemma_first_free<V>(entries: Seq<EntryModel<V>>, i: int)
    requires
        0 <= i <= entries.len(),
    ensures
        i <= first_free_from(entries, i) <= entries.len(),
        forall|j: int| i <= j < first_free_from(entries, i) ==> (#[trigger] entries[j]).awaited > 0,
        first_free_from(entries, i) < entries.len() ==> entries[first_free_from(
            entries,
            i,
        )].awaited == 0,
    decreases entries.len() - i,
{
    if i < entries.len() && entries[i].awaited != 0 {
        lemma_first_free(entries, i + 1);
    }
}

/// Taking something out keeps the rest filed under distinct keys.
pub proof fn lemma_remove_distinct<T: Keyed>(s: Seq<T>, p: int)
    requires
        distinct(s),
        0 <= p < s.len(),
    ensures
        distinct(s.remove(p)),
{
    let w = s.remove(p);
    assert forall|i: int, j: int| 0 <= i < j < w.len() implies (#[trigger] w[i]).key() != (
    #[trigger] w[j]).key() by {
        let si = if i < p {
            i
        } else {
            i + 1
        };
        let sj = if j < p {
            j
        } else {
            j + 1
        };
        assert(w[i] == s[si]);
        assert(w[j] == s[sj]);
        assert(s[si].key() != s[sj].key());
    }
}


impl<V, E> CacheModel<V, E> {
    /// Once a caller leads for `key`, a request for the same key that
    /// arrives within the leader's time is told to wait, and is counted.
    pub proof fn lemma_follower_waits(self, key: Seq<char>, start: int, now: int)
        requires
            self.wf(),
            self.begin(key, start).1 == Ticket::Lead,
            start <= now < start + self.leader_timeout,
        ensures
            self.begin(key, start).0.begin(key, now).1 == Ticket::Wait,
            self.begin(key, start).0.begin(key, now).0.waiters(key) == one_more(
                self.begin(key, start).0.waiters(key),
            ),
    {
        let led = self.begin(key, start).0;
        self.lemma_begin_wf(key, start);
        self.lemma_led(key, start);
        led.lemma_waits(key, start, now);
    }

    /// What the state looks like once a caller leads for `key`: the
    /// computation is on file from `start`, and nothing stored for the
    /// key is live at `start`.
    proof fn lemma_led(self, key: Seq<char>, start: int)
        requires
            self.wf(),
            self.begin(key, start).1 == Ticket::Lead,
        ensures
            filed(self.begin(key, start).0.in_flight, key),
            self.begin(key, start).0.in_flight[slot(
                self.begin(key, start).0.in_flight,
                key,
            )].started_at == start,
            self.begin(key, start).0.waiters(key) == self.waiters(key),
            self.begin(key, start).0.live_value(key, start) is None,
            self.begin(key, start).0.failures == self.failures,
            filed(self.begin(key, start).0.entries, key) ==> self.begin(key, start).0.entries
                == self.entries,
    {
        let led = self.begin(key, start).0;
        lemma_without(self.entries, key);
        if filed(self.in_flight, key) {
            let i = slot(self.in_flight, key);
            lemma_update(
                self.in_flight,
                i,
                FlightModel { started_at: start, ..self.in_flight[i] },
            );
        } else {
            lemma_push(self.in_flight, FlightModel { key, started_at: start, waiters: 0 });
        }
    }

    /// A request for a key whose leader is within its time, and for which
    /// nothing live is stored, waits; the leader stays on file.
    proof fn lemma_waits(self, key: Seq<char>, start: int, now: int)
        requires
            self.wf(),
            filed(self.in_flight, key),
            self.in_flight[slot(self.in_flight, key)].started_at == start,
            self.live_value(key, now) is None,
            now < start + self.leader_timeout,
        ensures
            self.begin(key, now).1 == Ticket::Wait,
            self.begin(key, now).0.wf(),
            self.begin(key, now).0.entries == self.entries,
            self.begin(key, now).0.failures == self.failures,
            filed(self.begin(key, now).0.in_flight, key),
            self.begin(key, now).0.in_flight[slot(
                self.begin(key, now).0.in_flight,
                key,
            )].started_at == start,
            self.begin(key, now).0.waiters(key) == one_more(self.waiters(key)),
    {
        let i = slot(self.in_flight, key);
        let flight = self.in_flight[i];
        lemma_update(self.in_flight, i, FlightModel { waiters: one_more(flight.waiters), ..flight });
        self.lemma_begin_wf(key, now);
    }

    proof fn lemma_waiting_leads_none(self, key: Seq<char>, start: int, times: Seq<int>)
        requires
            self.wf(),
            !filed(self.entries, key),
            filed(self.in_flight, key),
            self.in_flight[slot(self.in_flight, key)].started_at == start,
            forall|i: int|
                0 <= i < times.len() ==> #[trigger] times[i] < start + self.leader_timeout,
        ensures
            self.leads(key, times) == 0,
        decreases times.len(),
    {
        if times.len() > 0 {
            self.lemma_waits(key, start, times[0]);
            let next = self.begin(key, times[0]).0;
            let rest = times.drop_first();
            assert forall|i: int| 0 <= i < rest.len() implies #[trigger] rest[i] < start
                + next.leader_timeout by {
                assert(rest[i] == times[i + 1]);
            }
            next.lemma_waiting_leads_none(key, start, rest);
        }
    }

    /// Single flight: of any number of requests for one key that reach a
    /// cache holding nothing for it, all within the leader's time of the
    /// first, exactly one is told to compute.
    pub proof fn lemma_single_flight(self, key: Seq<char>, times: Seq<int>)
        requires
            self.wf(),
            !filed(self.entries, key),
            !filed(self.in_flight, key),
            times.len() > 0,
            forall|i: int|
                0 <= i < times.len() ==> #[trigger] times[i] < times[0] + self.leader_timeout,
        ensures
            self.leads(key, times) == 1,
    {
        let led = self.begin(key, times[0]).0;
        assert(self.begin(key, times[0]).1 == Ticket::Lead);
        self.lemma_begin_wf(key, times[0]);
        self.lemma_led(key, times[0]);
        assert(led.entries == self.entries);
        let rest = times.drop_first();
        assert forall|i: int| 0 <= i < rest.len() implies #[trigger] rest[i] < times[0]
            + led.leader_timeout by {
            assert(rest[i] == times[i + 1]);
        }
        led.lemma_waiting_leads_none(key, times[0], rest);
    }

    /// There is room for a result for `key`: fewer other results are
    /// stored than the capacity allows, or one of them can go.
    pub open spec fn has_room(self, key: Seq<char>) -> bool {
        let others = without(self.entries, key);
        others.len() < self.capacity || first_free_from(others, 0) < others.len()
    }

    /// Where a reported result is filed: last, unless it had to go at once.
    proof fn lemma_completed(self, key: Seq<char>, value: V, now: int, ttl: int)
        requires
            self.wf(),
        ensures
            !filed(self.complete(key, value, now, ttl).in_flight, key),
            self.complete(key, value, now, ttl).failures == self.failures,
            self.has_room(key) || self.entry_for(key, value, now, ttl).awaited > 0 ==> filed(
                self.complete(key, value, now, ttl).entries,
                key,
            ) && self.complete(key, value, now, ttl).entries[slot(
                self.complete(key, value, now, ttl).entries,
                key,
            )] == self.entry_for(key, value, now, ttl),
            !filed(self.complete(key, value, now, ttl).entries, key) || self.complete(
                key,
                value,
                now,
                ttl,
            ).entries[slot(self.complete(key, value, now, ttl).entries, key)] == self.entry_for(
                key,
                value,
                now,
                ttl,
            ),
    {
        let done = self.complete(key, value, now, ttl);
        let others = without(self.entries, key);
        let entry = self.entry_for(key, value, now, ttl);
        let stored = others.push(entry);
        self.lemma_complete_wf(key, value, now, ttl);
        lemma_without(self.entries, key);
        lemma_without(self.in_flight, key);
        lemma_push(others, entry);
        lemma_first_free(stored, 0);
        lemma_first_free(others, 0);
        let i = first_free_from(stored, 0);
        let last = stored.len() - 1;
        if first_free_from(others, 0) < others.len() {
            let j = first_free_from(others, 0);
            assert(stored[j] == others[j]);
            if i > j {
                assert(stored[j].awaited > 0);
            }
        }
        if done.entries == stored {
            lemma_slot(done.entries, key, last);
        } else if i < last {
            assert(done.entries[last - 1] == entry);
            lemma_slot(done.entries, key, last - 1);
        } else {
            assert forall|j: int| 0 <= j < done.entries.len() implies (
            #[trigger] done.entries[j]).key() != key by {
                assert(done.entries[j] == others[j]);
            }
        }
    }

    /// Freshness: until its time to live has passed, a reported result
    /// for which there is room is what every request for its key gets,
    /// and such a request changes nothing and starts no computation.
    pub proof fn lemma_fresh_hit(self, key: Seq<char>, value: V, at: int, ttl: int, now: int)
        requires
            self.wf(),
            self.has_room(key),
            now < at + ttl,
        ensures
            self.complete(key, value, at, ttl).live_value(key, now) == Some(value),
            self.complete(key, value, at, ttl).begin(key, now) == (
                self.complete(key, value, at, ttl),
                Ticket::Hit,
            ),
    {
        self.lemma_completed(key, value, at, ttl);
    }

    /// Expiry: once its time to live has passed, a reported result is
    /// live no more, and the next request for its key is told to compute.
    pub proof fn lemma_expired_leads(self, key: Seq<char>, value: V, at: int, ttl: int, now: int)
        requires
            self.wf(),
            now >= at + ttl,
        ensures
            self.complete(key, value, at, ttl).live_value(key, now) is None,
            self.complete(key, value, at, ttl).begin(key, now).1 == Ticket::Lead,
    {
        self.lemma_completed(key, value, at, ttl);
    }

    /// A failure is not stored: after the leader for `key` reports one,
    /// the next request for the key is told to compute afresh.
    pub proof fn lemma_failure_retries(self, key: Seq<char>, start: int, cause: E, now: int)
        requires
            self.wf(),
            self.begin(key, start).1 == Ticket::Lead,
            start <= now,
        ensures
            self.begin(key, start).0.fail(key, cause).begin(key, now).1 == Ticket::Lead,
            self.begin(key, start).0.fail(key, cause).entries == self.begin(key, start).0.entries,
    {
        let led = self.begin(key, start).0;
        self.lemma_begin_wf(key, start);
        self.lemma_led(key, start);
        lemma_without(led.in_flight, key);
    }

    /// The next `n` waiters for `key` to ask again all collect `what`.
    pub open spec fn next_collect(self, key: Seq<char>, n: nat, now: int, what: Outcome<V, E>) -> bool
        decreases n,
    {
        n == 0 || (self.outcome(key) == what && self.resume(key, now).0.next_collect(
            key,
            (n - 1) as nat,
            now,
            what,
        ))
    }

    proof fn lemma_collect_failure(self, key: Seq<char>, n: nat, now: int)
        requires
            self.wf(),
            self.awaited(key) == 0,
            n <= self.owed(key),
        ensures
            self.next_collect(
                key,
                n,
                now,
                Outcome::Failure(self.failures[slot(self.failures, key)].cause),
            ),
        decreases n,
    {
        if n > 0 {
            let i = slot(self.failures, key);
            let failure = self.failures[i];
            let next = self.resume(key, now).0;
            let what = Outcome::<V, E>::Failure(failure.cause);
            self.lemma_resume_wf(key, now);
            assert(self.outcome(key) == what);
            if n > 1 {
                let less = FailureModel { owed: (failure.owed - 1) as u64, ..failure };
                lemma_update(self.failures, i, less);
                assert(next.failures == self.failures.update(i, less));
                assert(next.entries == self.entries);
                next.lemma_collect_failure(key, (n - 1) as nat, now);
            } else {
                assert(next.next_collect(key, 0, now, what));
            }
        }
    }

    /// A failure reaches every waiter: after the leader for `key` reports
    /// one, each caller that waited for it collects that failure when it
    /// asks again, whenever that is. The `Failed` answer of `resume`
    /// goes with it.
    pub proof fn lemma_failure_reaches_waiters(self, key: Seq<char>, cause: E, n: nat, now: int)
        requires
            self.wf(),
            self.awaited(key) == 0,
            n <= self.waiters(key),
        ensures
            self.fail(key, cause).next_collect(key, n, now, Outcome::Failure(cause)),
            n > 0 ==> self.fail(key, cause).resume(key, now).1 == Resumed::Failed,
    {
        let failed = self.fail(key, cause);
        self.lemma_fail_wf(key, cause);
        if n > 0 {
            lemma_without(self.failures, key);
            let filed_failure = FailureModel {
                key,
                cause,
                owed: together(self.waiters(key), self.owed(key)),
            };
            lemma_push(without(self.failures, key), filed_failure);
            failed.lemma_collect_failure(key, n, now);
        }
    }

    proof fn lemma_collect_value(self, key: Seq<char>, n: nat, now: int)
        requires
            self.wf(),
            n <= self.awaited(key),
        ensures
            self.next_collect(
                key,
                n,
                now,
                Outcome::Value(self.entries[slot(self.entries, key)].value),
            ),
        decreases n,
    {
        if n > 0 {
            let i = slot(self.entries, key);
            let entry = self.entries[i];
            let next = self.resume(key, now).0;
            let what = Outcome::<V, E>::Value(entry.value);
            self.lemma_resume_wf(key, now);
            assert(self.outcome(key) == what);
            if n > 1 {
                let less = EntryModel { awaited: (entry.awaited - 1) as u64, ..entry };
                lemma_update(self.entries, i, less);
                assert(next.entries == self.entries.update(i, less));
                next.lemma_collect_value(key, (n - 1) as nat, now);
            } else {
                assert(next.next_collect(key, 0, now, what));
            }
        }
    }

    /// A result reaches every waiter: after the leader for `key` reports
    /// one, each caller that waited for it collects that result when it
    /// asks again, whenever that is: the result is kept for them though
    /// it expire or the cache be full. The `Ready` answer of `resume`
    /// goes with it.
    pub proof fn lemma_result_reaches_waiters(
        self,
        key: Seq<char>,
        value: V,
        at: int,
        ttl: int,
        n: nat,
        now: int,
    )
        requires
            self.wf(),
            n <= self.waiters(key),
        ensures
            self.complete(key, value, at, ttl).next_collect(key, n, now, Outcome::Value(value)),
            n > 0 ==> self.complete(key, value, at, ttl).resume(key, now).1 == Resumed::Ready,
    {
        let done = self.complete(key, value, at, ttl);
        self.lemma_complete_wf(key, value, at, ttl);
        if n > 0 {
            self.lemma_completed(key, value, at, ttl);
            done.lemma_collect_value(key, n, now);
        }
    }

    /// Eviction spares what is awaited and takes the oldest first: what a
    /// reported result leaves stored is everything that was stored for
    /// other keys, followed by the result, less at most one entry; that
    /// one is not awaited by any waiter, and every entry older than it
    /// is.
    pub proof fn lemma_eviction(self, key: Seq<char>, value: V, now: int, ttl: int)
        requires
            self.wf(),
        ensures
            ({
                let stored = without(self.entries, key).push(
                    self.entry_for(key, value, now, ttl),
                );
                let left = self.complete(key, value, now, ttl).entries;
                ||| left == stored
                ||| exists|i: int|
                    {
                        &&& 0 <= i < stored.len()
                        &&& stored.len() > self.capacity
                        &&& left == stored.remove(i)
                        &&& (#[trigger] stored[i]).awaited == 0
                        &&& forall|j: int| 0 <= j < i ==> (#[trigger] stored[j]).awaited > 0
                    }
            }),
    {
        let stored = without(self.entries, key).push(self.entry_for(key, value, now, ttl));
        lemma_first_free(stored, 0);
        let i = first_free_from(stored, 0);
        if stored.len() > self.capacity && i < stored.len() {
            assert(stored[i].awaited == 0);
        }
    }

    /// The capacity holds: where the stored results fit the capacity and
    /// there is room for one more, they fit it after a result is
    /// reported.
    pub proof fn lemma_capacity_holds(self, key: Seq<char>, value: V, now: int, ttl: int)
        requires
            self.wf(),
            self.entries.len() <= self.capacity,
            self.has_room(key) || self.entry_for(key, value, now, ttl).awaited == 0,
        ensures
            self.complete(key, value, now, ttl).entries.len() <= self.capacity,
    {
        let others = without(self.entries, key);
        let stored = others.push(self.entry_for(key, value, now, ttl));
        lemma_without(self.entries, key);
        lemma_first_free(stored, 0);
        lemma_first_free(others, 0);
        if first_free_from(others, 0) < others.len() {
            let j = first_free_from(others, 0);
            assert(stored[j] == others[j]);
            if first_free_from(stored, 0) > j {
                assert(stored[j].awaited > 0);
            }
        }
        if first_free_from(stored, 0) == stored.len() {
            assert(stored[stored.len() - 1].awaited > 0);
        }
    }

    /// A waiter that gives up while the leader is at work takes nothing
    /// with it: the leader stays on file with its start, one waiter
    /// fewer waits, and what is stored and what is owed stay as they are.
    pub proof fn lemma_withdraw_spares_the_leader(self, key: Seq<char>, now: int)
        requires
            self.wf(),
            self.outcome(key) is Nothing,
        ensures
            self.withdraw(key).leader_active(key, now) == self.leader_active(key, now),
            self.withdraw(key).entries == self.entries,
            self.withdraw(key).failures == self.failures,
            self.waiters(key) > 0 ==> self.withdraw(key).waiters(key) == self.waiters(key) - 1,
    {
        if self.waiters(key) > 0 {
            let i = slot(self.in_flight, key);
            let flight = self.in_flight[i];
            lemma_update(
                self.in_flight,
                i,
                FlightModel { waiters: (flight.waiters - 1) as u64, ..flight },
            );
        }
    }

    /// No waiter hangs: once the leader's time is up and there is
    /// nothing to collect, a waiter that asks again is told so.
    pub proof fn lemma_wait_ends(self, key: Seq<char>, now: int)
        requires
            self.wf(),
            self.outcome(key) is Nothing,
            filed(self.in_flight, key) ==> now >= self.in_flight[slot(
                self.in_flight,
                key,
            )].started_at + self.leader_timeout,
        ensures
            self.resume(key, now).1 == Resumed::Abandoned,
    {
    }
}


/// One stored result: when it was stored, how long it lives, and how
/// many waiters have yet to collect it.
#[derive(Debug)]
pub struct CacheEntry<V> {
    pub key: String,
    pub value: V,
    pub inserted_at: u64,
    pub ttl: u64,
    pub awaited: u64,
}

/// One computation under way: when its leader began, and how many
/// callers wait for it.
#[derive(Debug)]
pub struct Flight {
    pub key: String,
    pub started_at: u64,
    pub waiters: u64,
}

/// One reported failure that waiters have yet to collect.
#[derive(Debug)]
pub struct Failure<E> {
    pub key: String,
    pub cause: E,
    pub owed: u64,
}

/// A cache of query results, built with its capacity, the time a result
/// lives where none is given, and the time a leader has to report.
#[derive(Debug)]
pub struct ResultCache<V, E> {
    capacity: usize,
    default_ttl: u64,
    leader_timeout: u64,
    entries: Vec<CacheEntry<V>>,
    in_flight: Vec<Flight>,
    failures: Vec<Failure<E>>,
}

impl<V> View for CacheEntry<V> {
    type V = EntryModel<V>;

    open spec fn view(&self) -> EntryModel<V> {
        EntryModel {
            key: self.key@,
            value: self.value,
            inserted_at: self.inserted_at as int,
            ttl: self.ttl as int,
            awaited: self.awaited,
        }
    }
}

impl View for Flight {
    type V = FlightModel;

    open spec fn view(&self) -> FlightModel {
        FlightModel { key: self.key@, started_at: self.started_at as int, waiters: self.waiters }
    }
}

impl<E> View for Failure<E> {
    type V = FailureModel<E>;

    open spec fn view(&self) -> FailureModel<E> {
        FailureModel { key: self.key@, cause: self.cause, owed: self.owed }
    }
}

impl<V, E> View for ResultCache<V, E> {
    type V = CacheModel<V, E>;

    closed spec fn view(&self) -> CacheModel<V, E> {
        CacheModel {
            capacity: self.capacity as int,
            default_ttl: self.default_ttl as int,
            leader_timeout: self.leader_timeout as int,
            entries: Seq::new(self.entries@.len(), |i: int| self.entries@[i]@),
            in_flight: Seq::new(self.in_flight@.len(), |i: int| self.in_flight@[i]@),
            failures: Seq::new(self.failures@.len(), |i: int| self.failures@[i]@),
        }
    }
}

fn entry_live<V>(entry: &CacheEntry<V>, now: u64) -> (r: bool)
    ensures
        r == is_live(entry@, now as int),
{
    now < entry.inserted_at || now - entry.inserted_at < entry.ttl
}

fn count_more(n: u64) -> (r: u64)
    ensures
        r == one_more(n),
{
    if n < u64::MAX {
        n + 1
    } else {
        n
    }
}

fn count_together(a: u64, b: u64) -> (r: u64)
    ensures
        r == together(a, b),
{
    if a <= u64::MAX - b {
        a + b
    } else {
        u64::MAX
    }
}

impl<V, E> ResultCache<V, E> {
    /// The invariant of the cache: see `CacheModel::wf`.
    pub open spec fn wf(&self) -> bool {
        self@.wf()
    }

    /// An empty cache that stores at most `capacity` results, lets a
    /// result live for `default_ttl` where no other time is given, and
    /// gives a leader `leader_timeout` to report. The leader must be
    /// given some time: with none, no caller would ever wait for another.
    pub fn new(capacity: usize, default_ttl: u64, leader_timeout: u64) -> (cache: ResultCache<V, E>)
        requires
            leader_timeout > 0,
        ensures
            cache.wf(),
            cache@ == (CacheModel::<V, E> {
                capacity: capacity as int,
                default_ttl: default_ttl as int,
                leader_timeout: leader_timeout as int,
                entries: Seq::empty(),
                in_flight: Seq::empty(),
                failures: Seq::empty(),
            }),
    {
        let cache = ResultCache {
            capacity,
            default_ttl,
            leader_timeout,
            entries: Vec::new(),
            in_flight: Vec::new(),
            failures: Vec::new(),
        };
        assert(cache@.entries =~= Seq::empty());
        assert(cache@.in_flight =~= Seq::empty());
        assert(cache@.failures =~= Seq::empty());
        cache
    }

    /// The number of stored results, expired ones included.
    pub fn len(&self) -> (n: usize)
        ensures
            n == self@.entries.len(),
    {
        self.entries.len()
    }

    /// The number of results the cache is to store at most.
    pub fn capacity(&self) -> (n: usize)
        ensures
            n == self@.capacity,
    {
        self.capacity
    }

    fn find_entry(&self, key: &String) -> (r: Option<usize>)
        requires
            self.wf(),
        ensures
            match r {
                Some(i) => i < self.entries@.len() && filed(self@.entries, key@) && slot(
                    self@.entries,
                    key@,
                ) == i,
                None => !filed(self@.entries, key@),
            },
    {
        let mut i: usize = 0;
        while i < self.entries.len()
            invariant
                self.wf(),
                i <= self.entries@.len(),
                forall|j: int| 0 <= j < i ==> (#[trigger] self@.entries[j]).key() != key@,
            decreases self.entries@.len() - i,
        {
            if self.entries[i].key == *key {
                proof {
                    lemma_slot(self@.entries, key@, i as int);
                }
                return Some(i);
            }
            i += 1;
        }
        None
    }

    fn find_flight(&self, key: &String) -> (r: Option<usize>)
        requires
            self.wf(),
        ensures
            match r {
                Some(i) => i < self.in_flight@.len() && filed(self@.in_flight, key@) && slot(
                    self@.in_flight,
                    key@,
                ) == i,
                None => !filed(self@.in_flight, key@),
            },
    {
        let mut i: usize = 0;
        while i < self.in_flight.len()
            invariant
                self.wf(),
                i <= self.in_flight@.len(),
                forall|j: int| 0 <= j < i ==> (#[trigger] self@.in_flight[j]).key() != key@,
            decreases self.in_flight@.len() - i,
        {
            if self.in_flight[i].key == *key {
                proof {
                    lemma_slot(self@.in_flight, key@, i as int);
                }
                return Some(i);
            }
            i += 1;
        }
        None
    }

    fn find_failure(&self, key: &String) -> (r: Option<usize>)
        requires
            self.wf(),
        ensures
            match r {
                Some(i) => i < self.failures@.len() && filed(self@.failures, key@) && slot(
                    self@.failures,
                    key@,
                ) == i,
                None => !filed(self@.failures, key@),
            },
    {
        let mut i: usize = 0;
        while i < self.failures.len()
            invariant
                self.wf(),
                i <= self.failures@.len(),
                forall|j: int| 0 <= j < i ==> (#[trigger] self@.failures[j]).key() != key@,
            decreases self.failures@.len() - i,
        {
            if self.failures[i].key == *key {
                proof {
                    lemma_slot(self@.failures, key@, i as int);
                }
                return Some(i);
            }
            i += 1;
        }
        None
    }

    fn find_free(&self) -> (i: usize)
        ensures
            i == first_free_from(self@.entries, 0),
            i <= self.entries@.len(),
    {
        let mut i: usize = 0;
        while i < self.entries.len() && self.entries[i].awaited != 0
            invariant
                i <= self.entries@.len(),
                first_free_from(self@.entries, 0) == first_free_from(self@.entries, i as int),
            decreases self.entries@.len() - i,
        {
            i += 1;
        }
        i
    }

    /// The live result for `key`, if one is stored: a read-only view of
    /// what the leader reported.
    pub fn peek(&self, key: &str, now: u64) -> (r: Option<&V>)
        requires
            self.wf(),
        ensures
            match self@.live_value(key@, now as int) {
                Some(v) => r matches Some(found) && *found == v,
                None => r is None,
            },
    {
        let owned = String::from_str(key);
        match self.find_entry(&owned) {
            Some(i) => if entry_live(&self.entries[i], now) {
                Some(&self.entries[i].value)
            } else {
                None
            },
            None => None,
        }
    }

    /// The result that a waiter for `key` collects next, if that is a
    /// result: expired or not, it is there while waiters have yet to
    /// collect it.
    pub fn awaited_value(&self, key: &str) -> (r: Option<&V>)
        requires
            self.wf(),
        ensures
            match self@.outcome(key@) {
                Outcome::Value(v) => r matches Some(found) && *found == v,
                _ => r is None,
            },
    {
        let owned = String::from_str(key);
        match self.find_entry(&owned) {
            Some(i) => if self.entries[i].awaited > 0 {
                Some(&self.entries[i].value)
            } else {
                None
            },
            None => None,
        }
    }

    /// The failure that a waiter for `key` collects next, if that is a
    /// failure.
    pub fn owed_failure(&self, key: &str) -> (r: Option<&E>)
        requires
            self.wf(),
        ensures
            match self@.outcome(key@) {
                Outcome::Failure(e) => r matches Some(found) && *found == e,
                _ => r is None,
            },
    {
        let owned = String::from_str(key);
        match self.find_entry(&owned) {
            Some(i) => if self.entries[i].awaited > 0 {
                return None;
            },
            None => {},
        }
        match self.find_failure(&owned) {
            Some(i) => Some(&self.failures[i].cause),
            None => None,
        }
    }

    /// A request for `key` arrives at `now`: see `CacheModel::begin`.
    pub fn begin(&mut self, key: &str, now: u64) -> (ticket: Ticket)
        requires
            old(self).wf(),
        ensures
            final(self).wf(),
            (final(self)@, ticket) == old(self)@.begin(key@, now as int),
    {
        let owned = String::from_str(key);
        let entry = self.find_entry(&owned);
        let flight = self.find_flight(&owned);
        let ghost before = self@;
        proof {
            before.lemma_begin_wf(key@, now as int);
        }
        if let Some(i) = entry {
            if entry_live(&self.entries[i], now) {
                return Ticket::Hit;
            }
        }
        if let Some(j) = flight {
            let started = self.in_flight[j].started_at;
            if now < started || now - started < self.leader_timeout {
                let held = self.in_flight.remove(j);
                self.in_flight.insert(
                    j,
                    Flight {
                        key: held.key,
                        started_at: held.started_at,
                        waiters: count_more(held.waiters),
                    },
                );
                proof {
                    let want = before.begin(key@, now as int).0;
                    assert(self@.entries =~= want.entries);
                    assert(self@.in_flight =~= want.in_flight);
                    assert(self@.failures =~= want.failures);
                }
                return Ticket::Wait;
            }
        }
        if let Some(i) = entry {
            if self.entries[i].awaited == 0 {
                self.entries.remove(i);
            }
        }
        match flight {
            Some(j) => {
                let held = self.in_flight.remove(j);
                self.in_flight.insert(
                    j,
                    Flight { key: held.key, started_at: now, waiters: held.waiters },
                );
            },
            None => {
                self.in_flight.push(Flight { key: owned, started_at: now, waiters: 0 });
            },
        }
        proof {
            let want = before.begin(key@, now as int).0;
            assert(self@.entries =~= want.entries);
            assert(self@.in_flight =~= want.in_flight);
            assert(self@.failures =~= want.failures);
        }
        Ticket::Lead
    }

    /// A waiter for `key` asks again at `now`: see `CacheModel::resume`.
    /// What it collects is read beforehand through `awaited_value` or
    /// `owed_failure`.
    pub fn resume(&mut self, key: &str, now: u64) -> (r: Resumed)
        requires
            old(self).wf(),
        ensures
            final(self).wf(),
            (final(self)@, r) == old(self)@.resume(key@, now as int),
    {
        let owned = String::from_str(key);
        let entry = self.find_entry(&owned);
        let failure = self.find_failure(&owned);
        let flight = self.find_flight(&owned);
        let ghost before = self@;
        proof {
            before.lemma_resume_wf(key@, now as int);
        }
        if let Some(i) = entry {
            if self.entries[i].awaited > 0 {
                let over = self.entries.len() > self.capacity;
                let held = self.entries.remove(i);
                let left = held.awaited - 1;
                if !(left == 0 && over) {
                    self.entries.insert(
                        i,
                        CacheEntry {
                            key: held.key,
                            value: held.value,
                            inserted_at: held.inserted_at,
                            ttl: held.ttl,
                            awaited: left,
                        },
                    );
                }
                proof {
                    let want = before.resume(key@, now as int).0;
                    assert(self@.entries =~= want.entries);
                    assert(self@.in_flight =~= want.in_flight);
                    assert(self@.failures =~= want.failures);
                }
                return Resumed::Ready;
            }
        }
        if let Some(i) = failure {
            let held = self.failures.remove(i);
            if held.owed > 1 {
                self.failures.insert(
                    i,
                    Failure { key: held.key, cause: held.cause, owed: held.owed - 1 },
                );
            }
            proof {
                let want = before.resume(key@, now as int).0;
                assert(self@.entries =~= want.entries);
                assert(self@.in_flight =~= want.in_flight);
                assert(self@.failures =~= want.failures);
            }
            return Resumed::Failed;
        }
        if let Some(j) = flight {
            let started = self.in_flight[j].started_at;
            if now < started || now - started < self.leader_timeout {
                return Resumed::Waiting;
            }
            if self.in_flight[j].waiters > 0 {
                let held = self.in_flight.remove(j);
                self.in_flight.insert(
                    j,
                    Flight {
                        key: held.key,
                        started_at: held.started_at,
                        waiters: held.waiters - 1,
                    },
                );
            }
        }
        proof {
            let want = before.resume(key@, now as int).0;
            assert(self@.entries =~= want.entries);
            assert(self@.in_flight =~= want.in_flight);
            assert(self@.failures =~= want.failures);
        }
        Resumed::Abandoned
    }

    /// A waiter for `key` gives up without asking again: see
    /// `CacheModel::withdraw`.
    pub fn withdraw(&mut self, key: &str)
        requires
            old(self).wf(),
        ensures
            final(self).wf(),
            final(self)@ == old(self)@.withdraw(key@),
    {
        let owned = String::from_str(key);
        let entry = self.find_entry(&owned);
        let failure = self.find_failure(&owned);
        let flight = self.find_flight(&owned);
        let ghost before = self@;
        proof {
            before.lemma_withdraw_wf(key@);
        }
        let awaited = match entry {
            Some(i) => self.entries[i].awaited > 0,
            None => false,
        };
        if awaited || failure.is_some() {
            self.resume(key, 0);
            return ;
        }
        if let Some(j) = flight {
            if self.in_flight[j].waiters > 0 {
                let held = self.in_flight.remove(j);
                self.in_flight.insert(
                    j,
                    Flight {
                        key: held.key,
                        started_at: held.started_at,
                        waiters: held.waiters - 1,
                    },
                );
            }
        }
        proof {
            let want = before.withdraw(key@);
            assert(self@.entries =~= want.entries);
            assert(self@.in_flight =~= want.in_flight);
            assert(self@.failures =~= want.failures);
        }
    }

    /// The leader for `key` reports its result at `now`; it lives for
    /// `ttl`, or for the cache's default where none is given. See
    /// `CacheModel::complete`.
    pub fn complete(&mut self, key: &str, value: V, now: u64, ttl: Option<u64>)
        requires
            old(self).wf(),
        ensures
            final(self).wf(),
            final(self)@ == old(self)@.complete(
                key@,
                value,
                now as int,
                match ttl {
                    Some(t) => t as int,
                    None => old(self)@.default_ttl,
                },
            ),
    {
        let owned = String::from_str(key);
        let ttl = match ttl {
            Some(t) => t,
            None => self.default_ttl,
        };
        let entry = self.find_entry(&owned);
        let flight = self.find_flight(&owned);
        let ghost before = self@;
        proof {
            before.lemma_complete_wf(key@, value, now as int, ttl as int);
        }
        let mut awaited: u64 = 0;
        if let Some(j) = flight {
            let held = self.in_flight.remove(j);
            awaited = held.waiters;
        }
        if let Some(i) = entry {
            let held = self.entries.remove(i);
            awaited = count_together(awaited, held.awaited);
        }
        self.entries.push(CacheEntry { key: owned, value, inserted_at: now, ttl, awaited });
        let ghost stored = self@.entries;
        proof {
            let want = without(before.entries, key@).push(
                before.entry_for(key@, value, now as int, ttl as int),
            );
            assert(stored =~= want);
        }
        let free = self.find_free();
        if self.entries.len() > self.capacity && free < self.entries.len() {
            self.entries.remove(free);
        }
        proof {
            let want = before.complete(key@, value, now as int, ttl as int);
            assert(self@.entries =~= want.entries);
            assert(self@.in_flight =~= want.in_flight);
            assert(self@.failures =~= want.failures);
        }
    }
}

impl<V, E: Record> ResultCache<V, E> {
    /// The leader for `key` reports that its computation failed with
    /// `cause`: see `CacheModel::fail`. What comes back is the error for
    /// the leader's caller; every caller that waited collects the same
    /// cause through `owed_failure` and `resume`.
    pub fn fail(&mut self, key: &str, cause: E) -> (error: CacheComputeError<E>)
        requires
            old(self).wf(),
        ensures
            final(self).wf(),
            final(self)@ == old(self)@.fail(key@, cause),
            error.cause == cause,
    {
        let owned = String::from_str(key);
        let flight = self.find_flight(&owned);
        let failure = self.find_failure(&owned);
        let ghost before = self@;
        proof {
            before.lemma_fail_wf(key@, cause);
        }
        let mut waiters: u64 = 0;
        if let Some(j) = flight {
            let held = self.in_flight.remove(j);
            waiters = held.waiters;
        }
        if waiters > 0 {
            let mut owed: u64 = 0;
            if let Some(i) = failure {
                let held = self.failures.remove(i);
                owed = held.owed;
            }
            self.failures.push(
                Failure {
                    key: owned,
                    cause: cause.duplicate(),
                    owed: count_together(waiters, owed),
                },
            );
        }
        proof {
            let want = before.fail(key@, cause);
            assert(self@.entries =~= want.entries);
            assert(self@.in_flight =~= want.in_flight);
            assert(self@.failures =~= want.failures);
        }
        CacheComputeError { cause }
    }
}

} // verus!
