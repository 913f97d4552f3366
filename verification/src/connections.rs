//! The server's registry of live peers.
//!
//! A peer is known from the first datagram it sends until it has been
//! silent for longer than the idle timeout. There is no handshake and no
//! goodbye: a peer that comes back after its eviction is a new peer.

use crate::address::PeerAddress;
use vstd::prelude::*;

verus! {

/// How long the server waits for a silent peer unless told otherwise, in
/// nanoseconds: 5 s.
pub const DEFAULT_IDLE_TIMEOUT: u64 = 5_000_000_000;

/// A live peer and the time of its last datagram.
#[derive(Clone, Copy, Debug, PartialEq, Eq, Hash, Structural)]
pub struct Connection {
    pub address: PeerAddress,
    pub last_seen: u64,
}

/// Whether `address` has an entry in `connections`.
pub open spec fn is_known(connections: Seq<Connection>, address: PeerAddress) -> bool {
    exists|i: int| 0 <= i < connections.len() && (#[trigger] connections[i]).address == address
}

/// When the peer at `address` was last heard according to `connections`:
/// the time in its entry, and nothing if it has none.
pub open spec fn last_seen_of(connections: Seq<Connection>, address: PeerAddress) -> Option<u64>
    decreases connections.len(),
{
    if connections.len() == 0 {
        None
    } else if connections[0].address == address {
        Some(connections[0].last_seen)
    } else {
        last_seen_of(connections.subrange(1, connections.len() as int), address)
    }
}

/// Whether no address has two entries in `connections`.
pub open spec fn distinct(connections: Seq<Connection>) -> bool {
    forall|i: int, j: int|
        0 <= i < j < connections.len() ==> (#[trigger] connections[i]).address != (
        #[trigger] connections[j]).address
}

/// `connections` after a datagram from `address` has come at `now`: a known
/// peer has its time set to `now`, a new one is entered at the end.
pub open spec fn refreshed(connections: Seq<Connection>, address: PeerAddress, now: u64) -> Seq<
    Connection,
> {
    if is_known(connections, address) {
        connections.map_values(
            |c: Connection|
                if c.address == address {
                    Connection { address, last_seen: now }
                } else {
                    c
                },
        )
    } else {
        connections.push(Connection { address, last_seen: now })
    }
}

/// Whether a peer last seen at `last_seen` has at `now` been silent for
/// longer than `idle_timeout`.
pub open spec fn is_idle(last_seen: u64, now: u64, idle_timeout: u64) -> bool {
    now - last_seen > idle_timeout
}

/// The entries that a sweep at `now` keeps, in their order.
pub open spec fn survivors(connections: Seq<Connection>, now: u64, idle_timeout: u64) -> Seq<
    Connection,
> {
    connections.filter(|c: Connection| !is_idle(c.last_seen, now, idle_timeout))
}

/// The entries that a sweep at `now` removes, in their order.
pub open spec fn evicted(connections: Seq<Connection>, now: u64, idle_timeout: u64) -> Seq<
    Connection,
> {
    connections.filter(|c: Connection| is_idle(c.last_seen, now, idle_timeout))
}

/// Each live connection with its last known packet activity, and how long
/// a peer may stay silent.
pub struct NetworkResource {
    connections: Vec<Connection>,
    idle_timeout: u64,
}

impl View for NetworkResource {
    type V = Seq<Connection>;

    /// The live connections, in the order in which the peers first sent.
    closed spec fn view(&self) -> Seq<Connection> {
        self.connections@
    }
}

impl NetworkResource {
    /// What holds of every registry that this module hands out: no peer has
    /// two connections.
    pub open spec fn well_formed(&self) -> bool {
        distinct(self@)
    }

    /// How long a peer may stay silent before a sweep removes it.
    pub closed spec fn spec_idle_timeout(&self) -> u64 {
        self.idle_timeout
    }

    /// A registry without connections that lets a peer stay silent for
    /// `idle_timeout`.
    pub fn new(idle_timeout: u64) -> (net: Self)
        ensures
            net@ == Seq::<Connection>::empty(),
            net.idle_timeout() == idle_timeout,
            net.well_formed(),
    {
        Self { connections: Vec::new(), idle_timeout }
    }

    /// How long a peer may stay silent before a sweep removes it.
    #[verifier::when_used_as_spec(spec_idle_timeout)]
    pub fn idle_timeout(&self) -> (idle_timeout: u64)
        ensures
            idle_timeout == self.spec_idle_timeout(),
    {
        self.idle_timeout
    }

    /// The live connections, in the order in which the peers first sent.
    pub fn connections(&self) -> (connections: &Vec<Connection>)
        ensures
            connections@ == self@,
    {
        &self.connections
    }

    /// When the peer at `address` was last heard, if it is connected.
    pub fn last_seen(&self, address: PeerAddress) -> (last_seen: Option<u64>)
        ensures
            last_seen == last_seen_of(self@, address),
    {
        let mut i: usize = 0;
        assert(self@.subrange(0, self@.len() as int) =~= self@);
        while i < self.connections.len()
            invariant
                i <= self.connections.len(),
                last_seen_of(self@, address) == last_seen_of(
                    self@.subrange(i as int, self@.len() as int),
                    address,
                ),
            decreases self.connections.len() - i,
        {
            let ghost rest = self@.subrange(i as int, self@.len() as int);
            assert(rest[0] == self@[i as int]);
            assert(rest.subrange(1, rest.len() as int) =~= self@.subrange(
                i + 1,
                self@.len() as int,
            ));
            if self.connections[i].address == address {
                return Some(self.connections[i].last_seen);
            }
            i += 1;
        }
        None
    }

    /// Notes that a datagram from `address` has come at `now`, and says
    /// whether that peer is new.
    pub fn refresh(&mut self, address: PeerAddress, now: u64) -> (is_new: bool)
        ensures
            is_new <==> !is_known(old(self)@, address),
            final(self)@ == refreshed(old(self)@, address, now),
            final(self).idle_timeout() == old(self).idle_timeout(),
            old(self).well_formed() ==> final(self).well_formed(),
    {
        proof {
            if distinct(self@) {
                lemma_refreshed_distinct(self@, address, now);
            }
        }
        let ghost before = self@;
        let entry = Connection { address, last_seen: now };
        let ghost update = |c: Connection|
            if c.address == address {
                entry
            } else {
                c
            };
        let mut known: bool = false;
        let mut i: usize = 0;
        while i < self.connections.len()
            invariant
                i <= self.connections.len(),
                self.connections.len() == before.len(),
                self.idle_timeout == old(self).idle_timeout,
                entry == (Connection { address, last_seen: now }),
                update == |c: Connection|
                    if c.address == address {
                        entry
                    } else {
                        c
                    },
                forall|k: int| 0 <= k < i ==> #[trigger] self.connections@[k] == update(before[k]),
                forall|k: int| i <= k < before.len() ==> #[trigger] self.connections@[k] == before[k],
                known <==> is_known(before.subrange(0, i as int), address),
            decreases self.connections.len() - i,
        {
            let ghost seen = before.subrange(0, i as int);
            let ghost next = before.subrange(0, i + 1);
            if self.connections[i].address == address {
                self.connections.set(i, entry);
                known = true;
                assert(next[i as int].address == address);
            } else {
                proof {
                    if is_known(next, address) {
                        let k = choose|k: int| 0 <= k < next.len() && next[k].address == address;
                        assert(seen[k].address == address);
                    }
                }
            }
            proof {
                if is_known(seen, address) {
                    let k = choose|k: int| 0 <= k < seen.len() && seen[k].address == address;
                    assert(next[k].address == address);
                }
            }
            i += 1;
        }
        assert(before.subrange(0, i as int) =~= before);
        if known {
            assert(self@ =~= before.map_values(update));
        } else {
            assert(self@ =~= before) by {
                assert forall|k: int| 0 <= k < before.len() implies self@[k] == before[k] by {
                    if before[k].address == address {
                        assert(is_known(before, address));
                    }
                }
            }
            self.connections.push(entry);
        }
        !known
    }

    /// Removes every peer that at `now` has been silent for longer than the
    /// idle timeout, and returns what was removed, in the registry's order.
    pub fn evict_idle(&mut self, now: u64) -> (gone: Vec<Connection>)
        ensures
            final(self)@ == survivors(old(self)@, now, old(self).idle_timeout()),
            gone@ == evicted(old(self)@, now, old(self).idle_timeout()),
            final(self).idle_timeout() == old(self).idle_timeout(),
            old(self).well_formed() ==> final(self).well_formed(),
    {
        let ghost before = self@;
        let idle_timeout: u64 = self.idle_timeout;
        let ghost stays = |c: Connection| !is_idle(c.last_seen, now, idle_timeout);
        let ghost goes = |c: Connection| is_idle(c.last_seen, now, idle_timeout);
        let mut kept: Vec<Connection> = Vec::new();
        let mut gone: Vec<Connection> = Vec::new();
        let mut i: usize = 0;
        while i < self.connections.len()
            invariant
                i <= self.connections.len(),
                self.connections@ == before,
                stays == |c: Connection| !is_idle(c.last_seen, now, idle_timeout),
                goes == |c: Connection| is_idle(c.last_seen, now, idle_timeout),
                kept@ == before.subrange(0, i as int).filter(stays),
                gone@ == before.subrange(0, i as int).filter(goes),
            decreases self.connections.len() - i,
        {
            let c: Connection = self.connections[i];
            proof {
                let seen = before.subrange(0, i as int);
                assert(before.subrange(0, i + 1) =~= seen.push(c));
                lemma_filter_push(seen, c, stays);
                lemma_filter_push(seen, c, goes);
            }
            if now > c.last_seen && now - c.last_seen > idle_timeout {
                gone.push(c);
            } else {
                kept.push(c);
            }
            i += 1;
        }
        proof {
            assert(before.subrange(0, i as int) =~= before);
            if distinct(before) {
                lemma_filter_keeps_distinct(before, stays);
            }
        }
        self.connections = kept;
        gone
    }
}

impl Default for NetworkResource {
    fn default() -> (net: Self)
        ensures
            net@ == Seq::<Connection>::empty(),
            net.idle_timeout() == DEFAULT_IDLE_TIMEOUT,
            net.well_formed(),
    {
        Self { connections: Vec::new(), idle_timeout: DEFAULT_IDLE_TIMEOUT }
    }
}

/// Filtering a sequence with one more item at its end.
pub proof fn lemma_filter_push<T>(s: Seq<T>, last: T, keep: spec_fn(T) -> bool)
    ensures
        s.push(last).filter(keep) == if keep(last) {
            s.filter(keep).push(last)
        } else {
            s.filter(keep)
        },
{
    reveal(Seq::filter);
    assert(s.push(last).drop_last() =~= s);
}

/// A peer has a time of last contact exactly if it has an entry, and the
/// time is that of its first entry.
pub proof fn lemma_last_seen_of(connections: Seq<Connection>, address: PeerAddress)
    ensures
        last_seen_of(connections, address) is Some <==> is_known(connections, address),
        last_seen_of(connections, address) matches Some(t) ==> connections.contains(
            Connection { address, last_seen: t },
        ),
    decreases connections.len(),
{
    if connections.len() > 0 {
        let rest = connections.subrange(1, connections.len() as int);
        lemma_last_seen_of(rest, address);
        if connections[0].address == address {
            assert(connections[0] == Connection { address, last_seen: connections[0].last_seen });
        } else {
            if is_known(rest, address) {
                let k = choose|k: int| 0 <= k < rest.len() && rest[k].address == address;
                assert(connections[k + 1].address == address);
            }
            if is_known(connections, address) {
                let k = choose|k: int|
                    0 <= k < connections.len() && connections[k].address == address;
                assert(rest[k - 1].address == address);
            }
            if let Some(t) = last_seen_of(rest, address) {
                let entry = Connection { address, last_seen: t };
                let k = choose|k: int| 0 <= k < rest.len() && rest[k] == entry;
                assert(connections[k + 1] == entry);
            }
        }
    }
}

/// Setting the time of every entry of `address` to `now` changes when
/// that peer was last heard, if it is known, and nothing else.
proof fn lemma_updated_last_seen(
    connections: Seq<Connection>,
    address: PeerAddress,
    now: u64,
    other: PeerAddress,
)
    ensures
        last_seen_of(
            connections.map_values(
                |c: Connection|
                    if c.address == address {
                        Connection { address, last_seen: now }
                    } else {
                        c
                    },
            ),
            other,
        ) == if other == address && is_known(connections, address) {
            Some(now)
        } else {
            last_seen_of(connections, other)
        },
    decreases connections.len(),
{
    let update = |c: Connection|
        if c.address == address {
            Connection { address, last_seen: now }
        } else {
            c
        };
    let updated = connections.map_values(update);
    lemma_last_seen_of(connections, address);
    if connections.len() > 0 {
        let rest = connections.subrange(1, connections.len() as int);
        lemma_updated_last_seen(rest, address, now, other);
        lemma_last_seen_of(rest, address);
        assert(updated.subrange(1, updated.len() as int) =~= rest.map_values(update));
        assert(updated[0] == update(connections[0]));
    }
}

/// An entry at the end answers for its peer only if no entry before it
/// does.
proof fn lemma_pushed_last_seen(connections: Seq<Connection>, last: Connection, other: PeerAddress)
    ensures
        last_seen_of(connections.push(last), other) == match last_seen_of(connections, other) {
            Some(t) => Some(t),
            None => if last.address == other {
                Some(last.last_seen)
            } else {
                None
            },
        },
    decreases connections.len(),
{
    let pushed = connections.push(last);
    if connections.len() == 0 {
        assert(pushed[0] == last);
        assert(pushed.subrange(1, pushed.len() as int) =~= connections);
    } else {
        let rest = connections.subrange(1, connections.len() as int);
        lemma_pushed_last_seen(rest, last, other);
        assert(pushed.subrange(1, pushed.len() as int) =~= rest.push(last));
        assert(pushed[0] == connections[0]);
    }
}

/// After a datagram from `address` at `now`, that peer was last heard at
/// `now`, and every other peer when it was before.
pub proof fn lemma_refreshed_last_seen(
    connections: Seq<Connection>,
    address: PeerAddress,
    now: u64,
    other: PeerAddress,
)
    ensures
        last_seen_of(refreshed(connections, address, now), other) == if other == address {
            Some(now)
        } else {
            last_seen_of(connections, other)
        },
{
    lemma_last_seen_of(connections, address);
    if is_known(connections, address) {
        lemma_updated_last_seen(connections, address, now, other);
    } else {
        lemma_pushed_last_seen(connections, Connection { address, last_seen: now }, other);
    }
}

/// After a sweep, a peer that had been silent for too long is unknown,
/// and every other peer was last heard when it was before.
pub proof fn lemma_survivors_last_seen(
    connections: Seq<Connection>,
    now: u64,
    idle_timeout: u64,
    address: PeerAddress,
)
    requires
        distinct(connections),
    ensures
        last_seen_of(survivors(connections, now, idle_timeout), address) == match last_seen_of(
            connections,
            address,
        ) {
            Some(t) => if is_idle(t, now, idle_timeout) {
                None
            } else {
                Some(t)
            },
            None => None,
        },
{
    let stays = |c: Connection| !is_idle(c.last_seen, now, idle_timeout);
    let left = survivors(connections, now, idle_timeout);
    lemma_last_seen_of(connections, address);
    lemma_last_seen_of(left, address);
    lemma_filter_keeps_distinct(connections, stays);
    // At most one entry of the registry has this address, so an entry of
    // what is left that has it is that one.
    if let Some(t) = last_seen_of(left, address) {
        let kept = Connection { address, last_seen: t };
        assert(left.contains(kept));
        let k = choose|k: int| 0 <= k < left.len() && left[k] == kept;
        connections.lemma_filter_pred(stays, k);
        assert(connections.contains(kept));
        let was = Connection { address, last_seen: last_seen_of(connections, address)->0 };
        let i = choose|i: int| 0 <= i < connections.len() && connections[i] == kept;
        let j = choose|j: int| 0 <= j < connections.len() && connections[j] == was;
        assert(i == j);
    } else if let Some(t) = last_seen_of(connections, address) {
        let was = Connection { address, last_seen: t };
        let i = choose|i: int| 0 <= i < connections.len() && connections[i] == was;
        if !is_idle(t, now, idle_timeout) {
            connections.lemma_filter_contains(stays, i);
            let k = choose|k: int| 0 <= k < left.len() && left[k] == was;
            assert(left[k].address == address);
        }
    }
}

/// After a sweep at `now`, every peer that is still known has been heard
/// within the idle timeout before `now`.
pub proof fn lemma_survivors_are_fresh(connections: Seq<Connection>, now: u64, idle_timeout: u64)
    ensures
        forall|i: int|
            0 <= i < survivors(connections, now, idle_timeout).len() ==> now - (
            #[trigger] survivors(connections, now, idle_timeout)[i]).last_seen <= idle_timeout,
{
    let stays = |c: Connection| !is_idle(c.last_seen, now, idle_timeout);
    assert forall|i: int| 0 <= i < survivors(connections, now, idle_timeout).len() implies now - (
    #[trigger] survivors(connections, now, idle_timeout)[i]).last_seen <= idle_timeout by {
        connections.lemma_filter_pred(stays, i);
    }
}

/// Noting a datagram leaves distinct addresses distinct.
pub proof fn lemma_refreshed_distinct(connections: Seq<Connection>, address: PeerAddress, now: u64)
    requires
        distinct(connections),
    ensures
        distinct(refreshed(connections, address, now)),
{
}

/// What a filter keeps of entries with distinct addresses has distinct
/// addresses, and held each of them before.
pub proof fn lemma_filter_keeps_distinct(s: Seq<Connection>, keep: spec_fn(Connection) -> bool)
    requires
        distinct(s),
    ensures
        distinct(s.filter(keep)),
        forall|c: Connection| #[trigger] s.filter(keep).contains(c) ==> s.contains(c),
    decreases s.len(),
{
    reveal(Seq::filter);
    if s.len() > 0 {
        let head = s.drop_last();
        lemma_filter_keeps_distinct(head, keep);
        let kept = s.filter(keep);
        assert forall|c: Connection| #[trigger] kept.contains(c) implies s.contains(c) by {
            if head.filter(keep).contains(c) {
                let k = choose|k: int| 0 <= k < head.len() && head[k] == c;
                assert(s[k] == c);
            } else {
                assert(c == s.last());
                assert(s[s.len() - 1] == c);
            }
        }
        if keep(s.last()) {
            assert forall|i: int, j: int| 0 <= i < j < kept.len() implies (#[trigger] kept[i]).address
                != (#[trigger] kept[j]).address by {
                if j == kept.len() - 1 {
                    assert(head.filter(keep).contains(kept[i]));
                    let k = choose|k: int| 0 <= k < head.len() && head[k] == kept[i];
                    assert(s[k].address != s[s.len() - 1].address);
                }
            }
        }
    }
}

} // verus!
