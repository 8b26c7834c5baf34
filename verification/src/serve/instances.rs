//! The instances a serving manager holds. Each is a clone forked off a
//! template, a running host process, watched until the guest exits or the
//! instance is given up.

use super::api;
use crate::bytes;
use crate::discovery;
use crate::host::net::Address;
use crate::host::protocol::Reply;
use crate::host::protocol::Run;
use crate::text;
use vstd::prelude::*;

verus! {

/// A second in nanoseconds.
pub const NANOS: u128 = 1000000000;

/// The guest's state.
#[derive(Clone, Copy, Debug, PartialEq, Eq, Structural)]
pub enum GuestState {
    Running,
    /// The guest exited; `None` when the host went away without reporting a
    /// status.
    Exited(Option<i32>),
}

impl Default for GuestState {
    fn default() -> (r: Self)
        ensures
            r == GuestState::Running,
    {
        GuestState::Running
    }
}

/// The lease on an instance: renewing restarts its time to live. Times are in
/// nanoseconds on one clock that never goes back.
#[derive(Clone, Copy, Debug, PartialEq, Eq, Structural)]
pub struct Lease {
    pub ttl_seconds: u64,
    pub expires_at: u128,
}

/// When a lease taken at `now` expires.
pub open spec fn expiry(now: int, ttl_seconds: int) -> int {
    now + ttl_seconds * NANOS
}

/// The latest time at which a lease may be taken: its end can still be told
/// in whole seconds.
pub open spec fn can_lease(now: int, ttl_seconds: int) -> bool {
    expiry(now, ttl_seconds) / (NANOS as int) <= u64::MAX
}

/// One held instance.
#[derive(Debug)]
pub struct Entry {
    pub id: String,
    pub service: String,
    pub version: String,
    pub endpoint: Address,
    pub lease: Lease,
    pub state: GuestState,
}

impl Entry {
    /// The lease's end can be told in whole seconds.
    pub open spec fn valid(self) -> bool {
        self.lease.expires_at as int / (NANOS as int) <= u64::MAX
    }

    /// A running clone as an instance whose lease begins at `now`.
    pub fn adopt(
        id: String,
        service: String,
        version: String,
        endpoint: Address,
        ttl_seconds: u64,
        now: u128,
    ) -> (r: Self)
        requires
            can_lease(now as int, ttl_seconds as int),
        ensures
            r.valid(),
            r.id == id,
            r.service == service,
            r.version == version,
            r.endpoint == endpoint,
            r.lease.ttl_seconds == ttl_seconds,
            r.lease.expires_at == expiry(now as int, ttl_seconds as int),
            r.state == GuestState::Running,
    {
        let lease = lease_at(now, ttl_seconds);
        Entry { id, service, version, endpoint, lease, state: GuestState::Running }
    }

    /// Restarts the lease at `now`, with a new TTL when one is given.
    pub fn renew(&mut self, ttl_seconds: Option<u64>, now: u128)
        requires
            can_lease(
                now as int,
                (match ttl_seconds {
                    Some(ttl) => ttl as int,
                    None => old(self).lease.ttl_seconds as int,
                }),
            ),
        ensures
            final(self).valid(),
            ({
                let ttl = match ttl_seconds {
                    Some(ttl) => ttl,
                    None => old(self).lease.ttl_seconds,
                };
                *final(self) == Entry {
                    lease: Lease {
                        ttl_seconds: ttl,
                        expires_at: expiry(now as int, ttl as int) as u128,
                    },
                    ..*old(self)
                }
            }),
            final(self).lease.expires_at == expiry(
                now as int,
                final(self).lease.ttl_seconds as int,
            ),
    {
        let ttl: u64 = match ttl_seconds {
            Some(ttl) => ttl,
            None => self.lease.ttl_seconds,
        };
        self.lease = lease_at(now, ttl);
    }

    /// Whether the lease has run out.
    pub open spec fn expired(self, now: u128) -> bool {
        self.lease.expires_at <= now
    }

    /// Whether the lease has run out.
    pub fn is_expired(&self, now: u128) -> (r: bool)
        ensures
            r == self.expired(now),
    {
        self.lease.expires_at <= now
    }

    /// The guest's state.
    pub fn state(&self) -> (r: GuestState)
        ensures
            r == self.state,
    {
        self.state
    }

    /// The whole seconds left of the lease.
    pub open spec fn seconds_left(self, now: u128) -> int {
        if self.expired(now) {
            0
        } else {
            (self.lease.expires_at - now) / (NANOS as int)
        }
    }

    /// Whether `described` is the instance as the API describes it.
    pub open spec fn describes(self, now: u128, described: api::Instance) -> bool {
        &&& described.id == self.id
        &&& described.service == self.service
        &&& described.version == self.version
        &&& described.endpoint.host == self.endpoint.ip
        &&& described.endpoint.port == self.endpoint.port
        &&& described.state == match self.state {
            GuestState::Running => api::InstanceState::Running,
            GuestState::Exited(_) => api::InstanceState::Exited,
        }
        &&& described.exit_status == match self.state {
            GuestState::Running => None,
            GuestState::Exited(status) => status,
        }
        &&& described.expires_in_seconds == self.seconds_left(now)
    }

    /// The instance as the API describes it.
    pub fn describe(&self, now: u128) -> (r: api::Instance)
        requires
            self.valid(),
        ensures
            self.describes(now, r),
    {
        let left: u64 = if self.lease.expires_at <= now {
            0
        } else {
            proof {
                let whole = self.lease.expires_at - now;
                assert(whole / (NANOS as int) <= self.lease.expires_at as int / (NANOS as int))
                    by (nonlinear_arith)
                    requires
                        0 <= whole <= self.lease.expires_at,
                        NANOS > 0,
                ;
            }
            ((self.lease.expires_at - now) / NANOS) as u64
        };
        let (state, exit_status) = match self.state {
            GuestState::Running => (api::InstanceState::Running, None),
            GuestState::Exited(status) => (api::InstanceState::Exited, status),
        };
        api::Instance {
            id: self.id.clone(),
            service: self.service.clone(),
            version: self.version.clone(),
            endpoint: api::Endpoint { host: self.endpoint.ip.clone(), port: self.endpoint.port },
            state,
            exit_status,
            expires_in_seconds: left,
        }
    }
}

/// The lease taken at `now`.
fn lease_at(now: u128, ttl_seconds: u64) -> (r: Lease)
    requires
        can_lease(now as int, ttl_seconds as int),
    ensures
        r.ttl_seconds == ttl_seconds,
        r.expires_at == expiry(now as int, ttl_seconds as int),
        r.expires_at as int / (NANOS as int) <= u64::MAX,
{
    proof {
        let end = expiry(now as int, ttl_seconds as int);
        assert(end <= u128::MAX) by (nonlinear_arith)
            requires
                end / (NANOS as int) <= u64::MAX,
                NANOS == 1000000000,
        ;
    }
    Lease { ttl_seconds, expires_at: now + ttl_seconds as u128 * NANOS }
}

/// Whether the entries are in strict order of their ids: each id occurs once.
pub open spec fn by_id(entries: Seq<Entry>) -> bool {
    forall|i: int, j: int|
        0 <= i < j < entries.len() ==> discovery::text_less(
            (#[trigger] entries[i]).id@,
            (#[trigger] entries[j]).id@,
        )
}

/// The entry with an id.
pub open spec fn lookup(entries: Seq<Entry>, id: Seq<char>) -> Option<Entry>
    decreases entries.len(),
{
    if entries.len() == 0 {
        None
    } else if entries[0].id@ == id {
        Some(entries[0])
    } else {
        lookup(entries.drop_first(), id)
    }
}

/// The entries that have expired, or those that have not, in order.
pub open spec fn by_expiry(entries: Seq<Entry>, now: u128, expired: bool) -> Seq<Entry>
    decreases entries.len(),
{
    if entries.len() == 0 {
        Seq::empty()
    } else {
        let rest = by_expiry(entries.drop_last(), now, expired);
        if entries.last().expired(now) == expired {
            rest.push(entries.last())
        } else {
            rest
        }
    }
}

/// The held instances, by id and in id order.
#[derive(Debug)]
pub struct Registry {
    pub entries: Vec<Entry>,
}

proof fn lemma_lookup_at(entries: Seq<Entry>, k: int, id: Seq<char>)
    requires
        0 <= k < entries.len(),
        entries[k].id@ == id,
        forall|i: int| 0 <= i < k ==> (#[trigger] entries[i]).id@ != id,
    ensures
        lookup(entries, id) == Some(entries[k]),
    decreases entries.len(),
{
    if k > 0 {
        let rest = entries.drop_first();
        assert forall|i: int| 0 <= i < k - 1 implies (#[trigger] rest[i]).id@ != id by {
            assert(rest[i] == entries[i + 1]);
        }
        lemma_lookup_at(rest, k - 1, id);
    }
}

proof fn lemma_lookup_none(entries: Seq<Entry>, id: Seq<char>)
    requires
        forall|i: int| 0 <= i < entries.len() ==> (#[trigger] entries[i]).id@ != id,
    ensures
        lookup(entries, id) is None,
    decreases entries.len(),
{
    if entries.len() > 0 {
        let rest = entries.drop_first();
        assert forall|i: int| 0 <= i < rest.len() implies (#[trigger] rest[i]).id@ != id by {
            assert(rest[i] == entries[i + 1]);
        }
        lemma_lookup_none(rest, id);
    }
}

proof fn lemma_lookup_finds(entries: Seq<Entry>, id: Seq<char>) -> (k: int)
    ensures
        lookup(entries, id) is Some ==> 0 <= k < entries.len() && entries[k].id@ == id && lookup(
            entries,
            id,
        ) == Some(entries[k]),
    decreases entries.len(),
{
    if entries.len() == 0 || entries[0].id@ == id {
        0
    } else {
        let k = lemma_lookup_finds(entries.drop_first(), id);
        k + 1
    }
}

/// Ids in strict order are different.
proof fn lemma_ids_differ(entries: Seq<Entry>, i: int, j: int)
    requires
        by_id(entries),
        0 <= i < entries.len(),
        0 <= j < entries.len(),
        i != j,
    ensures
        entries[i].id@ != entries[j].id@,
{
    let (a, b) = if i < j {
        (i, j)
    } else {
        (j, i)
    };
    assert(discovery::text_less(entries[a].id@, entries[b].id@));
    bytes::lemma_less_irreflexive(vstd::utf8::encode_utf8(entries[a].id@));
}

proof fn lemma_lookup_index(entries: Seq<Entry>, k: int)
    requires
        by_id(entries),
        0 <= k < entries.len(),
    ensures
        lookup(entries, entries[k].id@) == Some(entries[k]),
{
    assert forall|i: int| 0 <= i < k implies (#[trigger] entries[i]).id@ != entries[k].id@ by {
        lemma_ids_differ(entries, i, k);
    }
    lemma_lookup_at(entries, k, entries[k].id@);
}

/// Removing an entry removes its id and nothing else.
proof fn lemma_removed(entries: Seq<Entry>, k: int, id: Seq<char>)
    requires
        by_id(entries),
        0 <= k < entries.len(),
    ensures
        by_id(entries.remove(k)),
        id == entries[k].id@ ==> lookup(entries.remove(k), id) is None,
        id != entries[k].id@ ==> lookup(entries.remove(k), id) == lookup(entries, id),
{
    let now = entries.remove(k);
    assert forall|i: int, j: int| 0 <= i < j < now.len() implies discovery::text_less(
        (#[trigger] now[i]).id@,
        (#[trigger] now[j]).id@,
    ) by {
        let a = if i < k {
            i
        } else {
            i + 1
        };
        let b = if j < k {
            j
        } else {
            j + 1
        };
        assert(now[i] == entries[a]);
        assert(now[j] == entries[b]);
    }
    if id == entries[k].id@ {
        assert forall|i: int| 0 <= i < now.len() implies (#[trigger] now[i]).id@ != id by {
            let a = if i < k {
                i
            } else {
                i + 1
            };
            assert(now[i] == entries[a]);
            lemma_ids_differ(entries, a, k);
        }
        lemma_lookup_none(now, id);
    } else {
        let at = lemma_lookup_finds(entries, id);
        if lookup(entries, id) is Some {
            let moved = if at < k {
                at
            } else {
                at - 1
            };
            assert(now[moved] == entries[at]);
            lemma_lookup_index(now, moved);
        } else {
            assert forall|i: int| 0 <= i < now.len() implies (#[trigger] now[i]).id@ != id by {
                let a = if i < k {
                    i
                } else {
                    i + 1
                };
                assert(now[i] == entries[a]);
                if entries[a].id@ == id {
                    lemma_lookup_index(entries, a);
                }
            }
            lemma_lookup_none(now, id);
        }
    }
}

/// An entry whose lease has been restarted.
pub open spec fn renewed(entry: Entry, ttl_seconds: Option<u64>, now: int) -> Entry {
    let ttl = match ttl_seconds {
        Some(ttl) => ttl,
        None => entry.lease.ttl_seconds,
    };
    Entry {
        lease: Lease { ttl_seconds: ttl, expires_at: expiry(now, ttl as int) as u128 },
        ..entry
    }
}

/// Changing an entry but for its id changes what is looked up under that id
/// and nothing else.
proof fn lemma_updated(entries: Seq<Entry>, k: int, entry: Entry)
    requires
        by_id(entries),
        0 <= k < entries.len(),
        entry.id@ == entries[k].id@,
    ensures
        by_id(entries.update(k, entry)),
        lookup(entries.update(k, entry), entry.id@) == Some(entry),
        forall|id: Seq<char>|
            id != entry.id@ ==> #[trigger] lookup(entries.update(k, entry), id) == lookup(
                entries,
                id,
            ),
{
    let now = entries.update(k, entry);
    assert forall|i: int, j: int| 0 <= i < j < now.len() implies discovery::text_less(
        (#[trigger] now[i]).id@,
        (#[trigger] now[j]).id@,
    ) by {
        assert(discovery::text_less(entries[i].id@, entries[j].id@));
    }
    lemma_lookup_index(now, k);
    assert forall|id: Seq<char>| id != entry.id@ implies #[trigger] lookup(now, id) == lookup(
        entries,
        id,
    ) by {
        assert(now.remove(k) =~= entries.remove(k));
        lemma_removed(now, k, id);
        lemma_removed(entries, k, id);
    }
}

impl Registry {
    /// The entries are in strict order of their ids, and each is valid.
    pub open spec fn valid(self) -> bool {
        &&& by_id(self.entries@)
        &&& forall|i: int| 0 <= i < self.entries@.len() ==> (#[trigger] self.entries@[i]).valid()
    }

    /// Nothing is held.
    pub fn new() -> (r: Self)
        ensures
            r.valid(),
            r.entries@ == Seq::<Entry>::empty(),
    {
        Registry { entries: Vec::new() }
    }

    /// Where the entry with an id is, or belongs.
    fn position(&self, id: &str) -> (r: (usize, bool))
        requires
            self.valid(),
        ensures
            r.0 <= self.entries@.len(),
            r.1 ==> r.0 < self.entries@.len() && self.entries@[r.0 as int].id@ == id@,
            r.1 ==> lookup(self.entries@, id@) == Some(self.entries@[r.0 as int]),
            !r.1 ==> lookup(self.entries@, id@) is None,
            forall|i: int|
                0 <= i < r.0 ==> discovery::text_less((#[trigger] self.entries@[i]).id@, id@),
            !r.1 ==> forall|i: int|
                r.0 <= i < self.entries@.len() ==> discovery::text_less(
                    id@,
                    (#[trigger] self.entries@[i]).id@,
                ),
    {
        let mut at: usize = 0;
        let ghost all = self.entries@;
        while at < self.entries.len() && bytes::is_less(
            self.entries[at].id.as_str().as_bytes(),
            id.as_bytes(),
        )
            invariant
                all == self.entries@,
                at <= all.len(),
                forall|i: int|
                    0 <= i < at ==> discovery::text_less((#[trigger] all[i]).id@, id@),
            decreases all.len() - at,
        {
            at = at + 1;
        }
        let found: bool = at < self.entries.len() && text::same_text(
            self.entries[at].id.as_str(),
            id,
        );
        proof {
            if found {
                lemma_lookup_index(all, at as int);
            } else {
                if at < all.len() {
                    discovery::lemma_text_total(all[at as int].id@, id@);
                }
                assert forall|i: int| at <= i < all.len() implies discovery::text_less(
                    id@,
                    (#[trigger] all[i]).id@,
                ) by {
                    if i > at {
                        discovery::lemma_text_transitive(id@, all[at as int].id@, all[i].id@);
                    }
                }
                assert forall|i: int| 0 <= i < all.len() implies (#[trigger] all[i]).id@ != id@ by {
                    bytes::lemma_less_irreflexive(vstd::utf8::encode_utf8(id@));
                }
                lemma_lookup_none(all, id@);
            }
        }
        (at, found)
    }

    /// Holds an instance, in place of one with the same id.
    pub fn insert(&mut self, entry: Entry)
        requires
            old(self).valid(),
            entry.valid(),
        ensures
            final(self).valid(),
            lookup(final(self).entries@, entry.id@) == Some(entry),
            forall|id: Seq<char>|
                id != entry.id@ ==> #[trigger] lookup(final(self).entries@, id) == lookup(
                    old(self).entries@,
                    id,
                ),
    {
        let (at, found) = self.position(entry.id.as_str());
        let ghost before = self.entries@;
        let ghost new = entry;
        let ghost mut rest = before;
        if found {
            let _replaced = self.entries.remove(at);
            proof {
                rest = before.remove(at as int);
                assert(self.entries@ =~= rest);
                assert forall|id: Seq<char>| id != new.id@ implies #[trigger] lookup(rest, id)
                    == lookup(before, id) by {
                    lemma_removed(before, at as int, id);
                }
                lemma_removed(before, at as int, new.id@);
                assert forall|i: int| 0 <= i < rest.len() implies (#[trigger] rest[i]).valid() by {
                    if i < at {
                        assert(rest[i] == before[i]);
                    } else {
                        assert(rest[i] == before[i + 1]);
                    }
                }
                assert forall|i: int| at <= i < rest.len() implies discovery::text_less(
                    new.id@,
                    (#[trigger] rest[i]).id@,
                ) by {
                    assert(rest[i] == before[i + 1]);
                    assert(discovery::text_less(before[at as int].id@, before[i + 1].id@));
                }
            }
        }
        self.entries.insert(at, entry);
        proof {
            let now = self.entries@;
            assert(now =~= rest.insert(at as int, new));
            assert forall|i: int, j: int| 0 <= i < j < now.len() implies discovery::text_less(
                (#[trigger] now[i]).id@,
                (#[trigger] now[j]).id@,
            ) by {
                let a = if i < at {
                    i
                } else {
                    i - 1
                };
                let b = if j < at {
                    j
                } else {
                    j - 1
                };
                if i != at {
                    assert(now[i] == rest[a]);
                    if i < at {
                        assert(rest[a] == before[a]);
                    }
                }
                if j != at {
                    assert(now[j] == rest[b]);
                    if j < at {
                        assert(rest[b] == before[b]);
                    }
                }
            }
            assert(now[at as int] == new);
            lemma_lookup_index(now, at as int);
            assert forall|id: Seq<char>| id != new.id@ implies #[trigger] lookup(now, id) == lookup(
                before,
                id,
            ) by {
                assert(now.remove(at as int) =~= rest);
                lemma_removed(now, at as int, id);
                assert(lookup(rest, id) == lookup(before, id));
            }
            assert forall|i: int| 0 <= i < now.len() implies (#[trigger] now[i]).valid() by {
                if i < at {
                    assert(now[i] == rest[i]);
                } else if i > at {
                    assert(now[i] == rest[i - 1]);
                }
            }
        }
    }

    /// The instance with an id.
    pub fn get(&self, id: &str) -> (r: Option<&Entry>)
        requires
            self.valid(),
        ensures
            match lookup(self.entries@, id@) {
                Some(entry) => r is Some && *(r->0) == entry && entry.valid(),
                None => r is None,
            },
    {
        let (at, found) = self.position(id);
        if found {
            Some(&self.entries[at])
        } else {
            None
        }
    }

    /// Gives up an instance.
    pub fn remove(&mut self, id: &str) -> (r: Option<Entry>)
        requires
            old(self).valid(),
        ensures
            final(self).valid(),
            r == lookup(old(self).entries@, id@),
            lookup(final(self).entries@, id@) is None,
            forall|other: Seq<char>|
                other != id@ ==> #[trigger] lookup(final(self).entries@, other) == lookup(
                    old(self).entries@,
                    other,
                ),
    {
        let (at, found) = self.position(id);
        let ghost before = self.entries@;
        if !found {
            return None;
        }
        let entry = self.entries.remove(at);
        proof {
            let now = self.entries@;
            assert(now =~= before.remove(at as int));
            lemma_removed(before, at as int, id@);
            assert forall|other: Seq<char>| other != id@ implies #[trigger] lookup(now, other)
                == lookup(before, other) by {
                lemma_removed(before, at as int, other);
            }
            assert forall|i: int| 0 <= i < now.len() implies (#[trigger] now[i]).valid() by {
                if i < at {
                    assert(now[i] == before[i]);
                } else {
                    assert(now[i] == before[i + 1]);
                }
            }
        }
        Some(entry)
    }

    /// Takes what the watcher of an instance has learnt of its guest; nothing
    /// where the instance is given up already.
    pub fn set_state(&mut self, id: &str, state: GuestState)
        requires
            old(self).valid(),
        ensures
            final(self).valid(),
            lookup(final(self).entries@, id@) == match lookup(old(self).entries@, id@) {
                Some(entry) => Some(Entry { state, ..entry }),
                None => None,
            },
            forall|other: Seq<char>|
                other != id@ ==> #[trigger] lookup(final(self).entries@, other) == lookup(
                    old(self).entries@,
                    other,
                ),
    {
        let (at, found) = self.position(id);
        let ghost before = self.entries@;
        if found {
            self.entries[at].state = state;
            proof {
                lemma_updated(before, at as int, self.entries@[at as int]);
                assert(self.entries@ =~= before.update(at as int, self.entries@[at as int]));
            }
        }
    }

    /// Restarts the lease of an instance that is held.
    pub fn renew(&mut self, id: &str, ttl_seconds: Option<u64>, now: u128)
        requires
            old(self).valid(),
            lookup(old(self).entries@, id@) matches Some(entry) ==> can_lease(
                now as int,
                (match ttl_seconds {
                    Some(ttl) => ttl as int,
                    None => entry.lease.ttl_seconds as int,
                }),
            ),
        ensures
            final(self).valid(),
            lookup(final(self).entries@, id@) == match lookup(old(self).entries@, id@) {
                Some(entry) => Some(renewed(entry, ttl_seconds, now as int)),
                None => None,
            },
            forall|other: Seq<char>|
                other != id@ ==> #[trigger] lookup(final(self).entries@, other) == lookup(
                    old(self).entries@,
                    other,
                ),
    {
        let (at, found) = self.position(id);
        let ghost before = self.entries@;
        if found {
            self.entries[at].renew(ttl_seconds, now);
            proof {
                lemma_updated(before, at as int, self.entries@[at as int]);
                assert(self.entries@ =~= before.update(at as int, self.entries@[at as int]));
            }
        }
    }

    /// Every held instance, in id order.
    pub fn list(&self) -> (r: &[Entry])
        ensures
            r@ == self.entries@,
    {
        self.entries.as_slice()
    }

    /// Removes and returns every expired instance.
    pub fn remove_expired(&mut self, now: u128) -> (r: Vec<Entry>)
        requires
            old(self).valid(),
        ensures
            final(self).valid(),
            r@ == by_expiry(old(self).entries@, now, true),
            final(self).entries@ == by_expiry(old(self).entries@, now, false),
    {
        let ghost all = self.entries@;
        let mut rest: Vec<Entry> = Vec::new();
        std::mem::swap(&mut rest, &mut self.entries);
        let mut expired: Vec<Entry> = Vec::new();
        let mut kept: Vec<Entry> = Vec::new();
        let ghost mut done: int = 0;
        proof {
            assert(rest@.skip(0) =~= rest@);
            assert(all.skip(0) =~= all);
        }
        while rest.len() > 0
            invariant
                0 <= done <= all.len(),
                rest@ == all.skip(done),
                expired@ == by_expiry(all.take(done), now, true),
                kept@ == by_expiry(all.take(done), now, false),
            decreases rest@.len(),
        {
            let entry = rest.remove(0);
            proof {
                assert(entry == all[done]);
                assert(all.take(done + 1).drop_last() =~= all.take(done));
                assert(rest@ =~= all.skip(done + 1));
                done = done + 1;
            }
            if entry.is_expired(now) {
                expired.push(entry);
            } else {
                kept.push(entry);
            }
        }
        proof {
            assert(all.take(done) =~= all);
            lemma_by_expiry(all, now, false);
        }
        self.entries = kept;
        expired
    }

    /// Gives up every instance.
    pub fn clear(&mut self)
        ensures
            final(self).valid(),
            final(self).entries@ == Seq::<Entry>::empty(),
    {
        self.entries = Vec::new();
    }
}

/// What is kept, or removed, of the entries is in order and valid as they
/// are.
proof fn lemma_by_expiry(entries: Seq<Entry>, now: u128, expired: bool)
    requires
        by_id(entries),
        forall|i: int| 0 <= i < entries.len() ==> (#[trigger] entries[i]).valid(),
    ensures
        by_id(by_expiry(entries, now, expired)),
        forall|i: int|
            0 <= i < by_expiry(entries, now, expired).len() ==> {
                let entry = #[trigger] by_expiry(entries, now, expired)[i];
                entry.valid() && entry.expired(now) == expired && entries.contains(entry)
            },
    decreases entries.len(),
{
    if entries.len() > 0 {
        let shorter = entries.drop_last();
        assert forall|i: int| 0 <= i < shorter.len() implies (#[trigger] shorter[i]).valid() by {
            assert(shorter[i] == entries[i]);
        }
        lemma_by_expiry(shorter, now, expired);
        let rest = by_expiry(shorter, now, expired);
        let all = by_expiry(entries, now, expired);
        assert forall|i: int| 0 <= i < all.len() implies {
            let entry = #[trigger] all[i];
            entry.valid() && entry.expired(now) == expired && entries.contains(entry)
        } by {
            if i < rest.len() {
                assert(all[i] == rest[i]);
                let k = choose|k: int| 0 <= k < shorter.len() && shorter[k] == rest[i];
                assert(entries[k] == rest[i]);
            } else {
                assert(all[i] == entries[entries.len() - 1]);
            }
        }
        assert forall|i: int, j: int| 0 <= i < j < all.len() implies discovery::text_less(
            (#[trigger] all[i]).id@,
            (#[trigger] all[j]).id@,
        ) by {
            assert(all[i] == rest[i]);
            if j < rest.len() {
                assert(all[j] == rest[j]);
            } else {
                let k = choose|k: int| 0 <= k < shorter.len() && shorter[k] == rest[i];
                assert(entries[k] == rest[i]);
                assert(all[j] == entries[entries.len() - 1]);
            }
        }
    }
}

/// A sweep destroys exactly what has expired: afterwards an instance is held
/// if and only if it was held before and its lease had not run out.
pub proof fn law_a_sweep_removes_what_has_expired(
    entries: Seq<Entry>,
    now: u128,
    id: Seq<char>,
)
    requires
        by_id(entries),
        forall|i: int| 0 <= i < entries.len() ==> (#[trigger] entries[i]).valid(),
    ensures
        lookup(by_expiry(entries, now, false), id) == match lookup(entries, id) {
            Some(entry) => if entry.expired(now) {
                None
            } else {
                Some(entry)
            },
            None => None,
        },
    decreases entries.len(),
{
    lemma_by_expiry(entries, now, false);
    let kept = by_expiry(entries, now, false);
    let at = lemma_lookup_finds(entries, id);
    if lookup(entries, id) is Some && !entries[at].expired(now) {
        lemma_kept(entries, now, at);
        let k = choose|k: int| 0 <= k < kept.len() && kept[k] == entries[at];
        lemma_lookup_index(kept, k);
    } else {
        assert forall|i: int| 0 <= i < kept.len() implies (#[trigger] kept[i]).id@ != id by {
            let entry = kept[i];
            let k = choose|k: int| 0 <= k < entries.len() && entries[k] == entry;
            if entry.id@ == id {
                lemma_lookup_index(entries, k);
                if lookup(entries, id) is Some {
                    if k != at {
                        lemma_ids_differ(entries, k, at);
                    }
                }
            }
        }
        lemma_lookup_none(kept, id);
    }
}

proof fn lemma_kept(entries: Seq<Entry>, now: u128, k: int)
    requires
        0 <= k < entries.len(),
        !entries[k].expired(now),
    ensures
        by_expiry(entries, now, false).contains(entries[k]),
    decreases entries.len(),
{
    let shorter = entries.drop_last();
    let all = by_expiry(entries, now, false);
    if k < shorter.len() {
        lemma_kept(shorter, now, k);
        let rest = by_expiry(shorter, now, false);
        let i = choose|i: int| 0 <= i < rest.len() && rest[i] == shorter[k];
        assert(all[i] == entries[k]);
    } else {
        assert(all.last() == entries[k]);
    }
}

/// A lease that is renewed in time never runs out before its whole TTL has
/// passed again.
pub proof fn law_a_renewed_lease_lasts_its_ttl(renewed: Entry, now: u128, later: u128)
    requires
        renewed.lease.expires_at == expiry(now as int, renewed.lease.ttl_seconds as int),
        later < now + renewed.lease.ttl_seconds * NANOS,
    ensures
        !renewed.expired(later),
{
}

/// What an instance's watcher does after an event of its host.
#[derive(Clone, Copy, Debug, PartialEq, Eq, Structural)]
pub enum WatchStep {
    /// Keep watching.
    Watch,
    /// The guest exited: stop the host.
    Stop,
    /// The host went away: make sure of it.
    Kill,
}

impl GuestState {
    /// Takes an event of the instance's host; `None` where the host went
    /// away.
    pub fn watch(&mut self, event: Option<&Reply>) -> (r: WatchStep)
        ensures
            match event {
                Some(Reply::Exited { run: Run::Guest, status, .. }) => r == WatchStep::Stop
                    && *final(self) == GuestState::Exited(Some(*status)),
                Some(_) => r == WatchStep::Watch && *final(self) == *old(self),
                None => r == WatchStep::Kill && *final(self) == if *old(self)
                    == GuestState::Running {
                    GuestState::Exited(None)
                } else {
                    *old(self)
                },
            },
    {
        match event {
            Some(Reply::Exited { run, status, .. }) => {
                if *run == Run::Guest {
                    *self = GuestState::Exited(Some(*status));
                    return WatchStep::Stop;
                }
                WatchStep::Watch
            },
            Some(_) => WatchStep::Watch,
            None => {
                if *self == GuestState::Running {
                    *self = GuestState::Exited(None);
                }
                WatchStep::Kill
            },
        }
    }
}

/// A lease runs from the moment it is taken or renewed for its whole TTL, in
/// seconds, and not a moment longer.
pub proof fn law_a_lease_ends_with_its_ttl(
    entry: Entry,
    ttl_seconds: Option<u64>,
    start: u128,
    now: u128,
)
    requires
        can_lease(
            start as int,
            (match ttl_seconds {
                Some(ttl) => ttl as int,
                None => entry.lease.ttl_seconds as int,
            }),
        ),
    ensures
        ({
            let after = renewed(entry, ttl_seconds, start as int);
            let ttl = match ttl_seconds {
                Some(ttl) => ttl as int,
                None => entry.lease.ttl_seconds as int,
            };
            &&& after.expired(now) <==> start + ttl * 1_000_000_000 <= now
            &&& after.lease.ttl_seconds == ttl
            &&& after.id == entry.id
            &&& after.service == entry.service
            &&& after.version == entry.version
            &&& after.endpoint == entry.endpoint
            &&& after.state == entry.state
            &&& after.seconds_left(start) == ttl
        }),
{
    let after = renewed(entry, ttl_seconds, start as int);
    let ttl = match ttl_seconds {
        Some(ttl) => ttl as int,
        None => entry.lease.ttl_seconds as int,
    };
    let end = expiry(start as int, ttl);
    assert(end <= u128::MAX) by (nonlinear_arith)
        requires
            end / (NANOS as int) <= u64::MAX,
            NANOS == 1000000000,
    ;
    assert(after.lease.expires_at == end);
    assert((ttl * 1_000_000_000) / 1_000_000_000 == ttl) by (nonlinear_arith);
}

/// An instance is described as what it is: the service it runs, where it
/// serves, whether its guest runs, the status it exited with, and the whole
/// seconds until it is destroyed.
pub proof fn law_an_instance_is_described_as_it_is(
    entry: Entry,
    now: u128,
    described: api::Instance,
)
    requires
        entry.describes(now, described),
    ensures
        described.id == entry.id,
        described.service == entry.service,
        described.version == entry.version,
        described.endpoint.host == entry.endpoint.ip,
        described.endpoint.port == entry.endpoint.port,
        described.state == api::InstanceState::Running <==> entry.state == GuestState::Running,
        entry.state matches GuestState::Exited(status) ==> described.exit_status == status,
        entry.state == GuestState::Running ==> described.exit_status is None,
        entry.lease.expires_at <= now ==> described.expires_in_seconds == 0,
        entry.lease.expires_at > now ==> described.expires_in_seconds * 1_000_000_000
            <= entry.lease.expires_at - now < (described.expires_in_seconds + 1) * 1_000_000_000,
{
}

proof fn lemma_each_expires_or_not(entries: Seq<Entry>, now: u128)
    ensures
        by_expiry(entries, now, true).len() + by_expiry(entries, now, false).len()
            == entries.len(),
    decreases entries.len(),
{
    if entries.len() > 0 {
        lemma_each_expires_or_not(entries.drop_last(), now);
    }
}

/// A sweep gives back exactly the instances whose lease has run out, and keeps
/// the others.
pub proof fn law_a_sweep_gives_back_what_it_removes(
    entries: Seq<Entry>,
    now: u128,
    expired: bool,
    i: int,
)
    requires
        0 <= i < entries.len(),
    ensures
        by_expiry(entries, now, expired).contains(entries[i]) <== (entries[i].lease.expires_at
            <= now) == expired,
        by_expiry(entries, now, true).len() + by_expiry(entries, now, false).len()
            == entries.len(),
        forall|k: int|
            0 <= k < by_expiry(entries, now, expired).len() ==> (#[trigger] by_expiry(
                entries,
                now,
                expired,
            )[k].lease.expires_at <= now) == expired,
    decreases entries.len(),
{
    let shorter = entries.drop_last();
    let rest = by_expiry(shorter, now, expired);
    let all = by_expiry(entries, now, expired);
    lemma_each_expires_or_not(entries, now);
    if shorter.len() > 0 {
        let at = if i < shorter.len() {
            i
        } else {
            0
        };
        law_a_sweep_gives_back_what_it_removes(shorter, now, expired, at);
    }
    if (entries[i].lease.expires_at <= now) == expired {
        if i < shorter.len() {
            let k = choose|k: int| 0 <= k < rest.len() && rest[k] == shorter[i];
            assert(all[k] == entries[i]);
        } else {
            assert(all[all.len() - 1] == entries[i]);
        }
    }
    assert forall|k: int| 0 <= k < all.len() implies (#[trigger] all[k].lease.expires_at <= now)
        == expired by {
        if k < rest.len() {
            assert(all[k] == rest[k]);
        }
    }
}

/// An instance is looked up by its own id: what is found has that id, and
/// nothing is found only where none has it.
pub proof fn law_an_instance_is_found_by_its_id(entries: Seq<Entry>, id: Seq<char>, i: int)
    requires
        by_id(entries),
        0 <= i < entries.len(),
    ensures
        entries[i].id@ == id ==> lookup(entries, id) == Some(entries[i]),
        lookup(entries, id) matches Some(entry) ==> entry.id@ == id && entries.contains(entry),
{
    if entries[i].id@ == id {
        lemma_lookup_index(entries, i);
    }
    let k = lemma_lookup_finds(entries, id);
    if lookup(entries, id) is Some {
        assert(entries[k] == lookup(entries, id)->0);
    }
}

/// A lease can be given exactly where the second it ends in can be counted.
pub proof fn law_when_a_lease_can_be_given(now: int, ttl_seconds: int)
    requires
        0 <= now,
        0 <= ttl_seconds,
    ensures
        can_lease(now, ttl_seconds) <==> now + ttl_seconds * 1000000000 < (u64::MAX + 1)
            * 1000000000,
{
}

} // verus!
