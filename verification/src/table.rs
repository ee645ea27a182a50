//! The connection table: all live connections keyed by descriptor, owned
//! and mutated only by the reactor loop. Its model is a map from
//! descriptor to connection state; every operation says exactly which key
//! it touches, so one connection's progress can never leak into another's.
use vstd::prelude::*;

use crate::connection::{
    step_flush_spec, step_read_spec, step_write_spec, status_of, wf, Conn, ConnV, ConnectionStatus,
    Interest, ReadEvent, WriteEvent,
};

verus! {

/// A connection that is finished one way or the other and must be removed.
pub open spec fn is_terminal(c: ConnV) -> bool {
    c is Done || c is Failed
}

/// The keys of the entries are pairwise different.
pub open spec fn distinct_keys(entries: Seq<(u64, Conn)>) -> bool {
    forall|i: int, j: int|
        0 <= i < j < entries.len() ==> (#[trigger] entries[i]).0 != (#[trigger] entries[j]).0
}

/// Every stored connection is well-formed.
pub open spec fn entries_wf(entries: Seq<(u64, Conn)>) -> bool {
    forall|i: int| 0 <= i < entries.len() ==> wf((#[trigger] entries[i]).1@)
}

/// The map an entry list denotes; a later binding of a key would win, but
/// the table keeps keys distinct.
pub open spec fn map_of(entries: Seq<(u64, Conn)>) -> Map<u64, ConnV>
    decreases entries.len(),
{
    if entries.len() == 0 {
        Map::empty()
    } else {
        map_of(entries.drop_last()).insert(entries.last().0, entries.last().1@)
    }
}

/// A key is in the map exactly when some entry carries it.
pub proof fn lemma_map_of_contains(entries: Seq<(u64, Conn)>, k: u64)
    ensures
        map_of(entries).contains_key(k) <==> exists|i: int|
            0 <= i < entries.len() && (#[trigger] entries[i]).0 == k,
    decreases entries.len(),
{
    if entries.len() > 0 {
        lemma_map_of_contains(entries.drop_last(), k);
        if entries.last().0 == k {
            assert(entries[entries.len() - 1].0 == k);
        } else {
            if map_of(entries).contains_key(k) {
                let i = choose|i: int|
                    0 <= i < entries.drop_last().len() && (#[trigger] entries.drop_last()[i]).0
                        == k;
                assert(entries[i].0 == k);
            }
            if exists|i: int| 0 <= i < entries.len() && (#[trigger] entries[i]).0 == k {
                let i = choose|i: int| 0 <= i < entries.len() && (#[trigger] entries[i]).0 == k;
                assert(entries.drop_last()[i].0 == k);
            }
        }
    }
}

/// With distinct keys, the entry that carries a key gives its value.
pub proof fn lemma_map_of_value(entries: Seq<(u64, Conn)>, i: int)
    requires
        distinct_keys(entries),
        0 <= i < entries.len(),
    ensures
        map_of(entries).contains_key(entries[i].0),
        map_of(entries)[entries[i].0] == entries[i].1@,
    decreases entries.len(),
{
    let k = entries[i].0;
    lemma_map_of_contains(entries, k);
    if i == entries.len() - 1 {
    } else {
        assert(entries.drop_last()[i] == entries[i]);
        assert(entries.last().0 != k);
        lemma_map_of_value(entries.drop_last(), i);
    }
}

/// The connection table.
pub struct ConnTable {
    entries: Vec<(u64, Conn)>,
}

impl View for ConnTable {
    type V = Map<u64, ConnV>;

    closed spec fn view(&self) -> Map<u64, ConnV> {
        map_of(self.entries@)
    }
}

impl ConnTable {
    /// The table's invariant: distinct descriptors, well-formed states.
    pub closed spec fn inv(&self) -> bool {
        distinct_keys(self.entries@) && entries_wf(self.entries@)
    }

    /// An empty table.
    pub fn new() -> (t: ConnTable)
        ensures
            t@ == Map::<u64, ConnV>::empty(),
            t.inv(),
    {
        ConnTable { entries: Vec::new() }
    }

    /// Whether a descriptor is registered.
    pub fn contains(&self, fd: u64) -> (r: bool)
        ensures
            r == self@.contains_key(fd),
    {
        let n = self.entries.len();
        let mut i: usize = 0;
        while i < n
            invariant
                n == self.entries@.len(),
                i <= n,
                forall|k: int| 0 <= k < i ==> (#[trigger] self.entries@[k]).0 != fd,
            decreases n - i,
        {
            if self.entries[i].0 == fd {
                proof {
                    lemma_map_of_contains(self.entries@, fd);
                }
                return true;
            }
            i = i + 1;
        }
        proof {
            lemma_map_of_contains(self.entries@, fd);
        }
        false
    }

    /// Registers a newly accepted descriptor with a fresh Reading state.
    /// Refuses a descriptor that is somehow already present, leaving the
    /// table unchanged.
    pub fn register_accepted(&mut self, fd: u64) -> (r: bool)
        requires
            old(self).inv(),
        ensures
            final(self).inv(),
            r == !old(self)@.contains_key(fd),
            r ==> final(self)@ == old(self)@.insert(
                fd,
                ConnV::Reading { buf: Seq::<u8>::empty() },
            ),
            !r ==> final(self)@ == old(self)@,
    {
        if self.contains(fd) {
            return false;
        }
        proof {
            lemma_map_of_contains(self.entries@, fd);
        }
        let c = Conn::new();
        let ghost entries0 = self.entries@;
        self.entries.push((fd, c));
        proof {
            assert(self.entries@.drop_last() =~= entries0);
            assert forall|i: int, j: int| 0 <= i < j < self.entries@.len() implies (
            #[trigger] self.entries@[i]).0 != (#[trigger] self.entries@[j]).0 by {
                if j < self.entries@.len() - 1 {
                } else {
                    if self.entries@[i].0 == fd {
                        lemma_map_of_contains(entries0, fd);
                        assert(entries0[i].0 == fd);
                    }
                }
            }
            assert(entries_wf(self.entries@));
        }
        true
    }

    /// Takes a connection out of the table, leaving the rest untouched.
    fn take(&mut self, fd: u64) -> (r: Option<Conn>)
        requires
            old(self).inv(),
        ensures
            final(self).inv(),
            match r {
                Some(c) => old(self)@.contains_key(fd) && c@ == old(self)@[fd] && wf(c@)
                    && final(self)@ == old(self)@.remove(fd),
                None => !old(self)@.contains_key(fd) && final(self)@ == old(self)@,
            },
    {
        let ghost m0 = map_of(self.entries@);
        let mut kept: Vec<(u64, Conn)> = Vec::new();
        let mut found: Option<Conn> = None;
        proof {
            assert(map_of(kept@) =~= Map::<u64, ConnV>::empty());
        }
        while self.entries.len() > 0
            invariant
                distinct_keys(self.entries@),
                entries_wf(self.entries@),
                distinct_keys(kept@),
                entries_wf(kept@),
                forall|k: u64|
                    !(map_of(self.entries@).contains_key(k) && map_of(kept@).contains_key(k)),
                forall|k: u64|
                    #[trigger] m0.contains_key(k) <==> (map_of(self.entries@).contains_key(k)
                        || map_of(kept@).contains_key(k) || (found is Some && k == fd)),
                forall|k: u64|
                    #[trigger] map_of(self.entries@).contains_key(k) ==> m0.contains_key(k)
                        && m0[k] == map_of(self.entries@)[k],
                forall|k: u64|
                    #[trigger] map_of(kept@).contains_key(k) ==> m0.contains_key(k) && m0[k]
                        == map_of(kept@)[k],
                match found {
                    Some(c) => m0.contains_key(fd) && c@ == m0[fd] && wf(c@) && !map_of(
                        self.entries@,
                    ).contains_key(fd) && !map_of(kept@).contains_key(fd),
                    None => !map_of(kept@).contains_key(fd),
                },
            decreases self.entries@.len(),
        {
            let ghost before = self.entries@;
            match self.entries.pop() {
                None => {},
                Some(pair) => {
                    proof {
                        assert(before.drop_last() =~= self.entries@);
                        assert(pair == before.last());
                        assert(map_of(before) == map_of(self.entries@).insert(pair.0, pair.1@));
                        lemma_map_of_contains(self.entries@, pair.0);
                        if map_of(self.entries@).contains_key(pair.0) {
                            let i = choose|i: int|
                                0 <= i < self.entries@.len() && (#[trigger] self.entries@[i]).0
                                    == pair.0;
                            assert(before[i].0 == before[before.len() - 1].0);
                            assert(false);
                        }
                        assert(wf(pair.1@)) by {
                            assert(before[before.len() - 1].1@ == pair.1@);
                            assert(entries_wf(before));
                        }
                        assert forall|i: int| 0 <= i < self.entries@.len() implies wf(
                            (#[trigger] self.entries@[i]).1@,
                        ) by {
                            assert(before[i] == self.entries@[i]);
                            assert(entries_wf(before));
                        }
                        assert(map_of(before).contains_key(pair.0));
                        assert(m0.contains_key(pair.0) && m0[pair.0] == pair.1@);
                        assert forall|k: u64|
                            #[trigger] map_of(self.entries@).contains_key(k) implies m0.contains_key(
                            k,
                        ) && m0[k] == map_of(self.entries@)[k] by {
                            assert(k != pair.0);
                            assert(map_of(before).contains_key(k));
                            assert(map_of(before)[k] == map_of(self.entries@)[k]);
                        }
                    }
                    if pair.0 == fd {
                        found = Some(pair.1);
                    } else {
                        let ghost kept0 = kept@;
                        proof {
                            lemma_map_of_contains(kept0, pair.0);
                        }
                        kept.push(pair);
                        proof {
                            assert(kept@.drop_last() =~= kept0);
                            assert(map_of(kept@) == map_of(kept0).insert(pair.0, pair.1@));
                            assert forall|i: int, j: int|
                                0 <= i < j < kept@.len() implies (#[trigger] kept@[i]).0 != (
                            #[trigger] kept@[j]).0 by {
                                if j == kept@.len() - 1 {
                                    if kept@[i].0 == pair.0 {
                                        assert(kept0[i].0 == pair.0);
                                        lemma_map_of_contains(kept0, pair.0);
                                    }
                                } else {
                                    assert(kept0[i] == kept@[i]);
                                    assert(kept0[j] == kept@[j]);
                                }
                            }
                            assert forall|i: int| 0 <= i < kept@.len() implies wf(
                                (#[trigger] kept@[i]).1@,
                            ) by {
                                if i < kept@.len() - 1 {
                                    assert(kept0[i] == kept@[i]);
                                }
                            }
                            assert forall|k: u64|
                                #[trigger] map_of(kept@).contains_key(k) implies m0.contains_key(k)
                                && m0[k] == map_of(kept@)[k] by {
                                if k != pair.0 {
                                    assert(map_of(kept0).contains_key(k));
                                    assert(map_of(kept0)[k] == map_of(kept@)[k]);
                                }
                            }
                        }
                    }
                },
            }
        }
        proof {
            assert(self.entries@.len() == 0);
            assert(map_of(self.entries@) =~= Map::<u64, ConnV>::empty());
        }
        self.entries = kept;
        proof {
            if found is Some {
                assert(map_of(self.entries@) =~= m0.remove(fd));
            } else {
                assert(map_of(self.entries@) =~= m0);
            }
        }
        found
    }

    /// Puts a connection in under a key that is not yet present.
    fn put(&mut self, fd: u64, c: Conn)
        requires
            old(self).inv(),
            !old(self)@.contains_key(fd),
            wf(c@),
        ensures
            final(self).inv(),
            final(self)@ == old(self)@.insert(fd, c@),
    {
        let ghost entries0 = self.entries@;
        self.entries.push((fd, c));
        proof {
            assert(self.entries@.drop_last() =~= entries0);
            assert forall|i: int, j: int| 0 <= i < j < self.entries@.len() implies (
            #[trigger] self.entries@[i]).0 != (#[trigger] self.entries@[j]).0 by {
                if j < self.entries@.len() - 1 {
                } else {
                    if self.entries@[i].0 == fd {
                        lemma_map_of_contains(entries0, fd);
                        assert(entries0[i].0 == fd);
                    }
                }
            }
            assert(entries_wf(self.entries@));
        }
    }

    /// Copies the unsent response suffix of a Writing connection, for the
    /// loop to hand to the writer.
    pub fn pending_of(&self, fd: u64) -> (r: Option<Vec<u8>>)
        requires
            self.inv(),
        ensures
            match r {
                Some(p) => self@.contains_key(fd) && p@ == crate::connection::pending_of(
                    self@[fd],
                ),
                None => !self@.contains_key(fd),
            },
    {
        let n = self.entries.len();
        let mut i: usize = 0;
        while i < n
            invariant
                self.inv(),
                n == self.entries@.len(),
                i <= n,
                forall|k: int| 0 <= k < i ==> (#[trigger] self.entries@[k]).0 != fd,
            decreases n - i,
        {
            if self.entries[i].0 == fd {
                proof {
                    lemma_map_of_value(self.entries@, i as int);
                }
                let p = self.entries[i].1.pending();
                return Some(p);
            }
            i = i + 1;
        }
        proof {
            lemma_map_of_contains(self.entries@, fd);
        }
        None
    }

    /// Advances the one connection registered under `fd` by a read event;
    /// every other entry of the table is untouched. Nothing happens for an
    /// unknown descriptor.
    pub fn deliver_read(&mut self, fd: u64, ev: ReadEvent) -> (r: Option<ConnectionStatus>)
        requires
            old(self).inv(),
        ensures
            final(self).inv(),
            match r {
                Some(st) => old(self)@.contains_key(fd) && final(self)@ == old(self)@.insert(
                    fd,
                    step_read_spec(old(self)@[fd], ev@),
                ) && st == status_of(step_read_spec(old(self)@[fd], ev@)),
                None => !old(self)@.contains_key(fd) && final(self)@ == old(self)@,
            },
    {
        let c = match self.take(fd) {
            None => {
                return None;
            },
            Some(c) => c,
        };
        let (c2, st) = c.on_read_event(ev);
        self.put(fd, c2);
        proof {
            assert(old(self)@.remove(fd).insert(fd, c2@) =~= old(self)@.insert(fd, c2@));
        }
        Some(st)
    }

    /// Advances the one connection registered under `fd` by a write event;
    /// every other entry of the table is untouched.
    pub fn deliver_write(&mut self, fd: u64, ev: WriteEvent) -> (r: Option<ConnectionStatus>)
        requires
            old(self).inv(),
        ensures
            final(self).inv(),
            match r {
                Some(st) => old(self)@.contains_key(fd) && final(self)@ == old(self)@.insert(
                    fd,
                    step_write_spec(old(self)@[fd], ev),
                ) && st == status_of(step_write_spec(old(self)@[fd], ev)),
                None => !old(self)@.contains_key(fd) && final(self)@ == old(self)@,
            },
    {
        let c = match self.take(fd) {
            None => {
                return None;
            },
            Some(c) => c,
        };
        let (c2, st) = c.on_write_event(ev);
        self.put(fd, c2);
        proof {
            assert(old(self)@.remove(fd).insert(fd, c2@) =~= old(self)@.insert(fd, c2@));
        }
        Some(st)
    }

    /// Advances the one connection registered under `fd` by the flush
    /// confirmation; every other entry of the table is untouched.
    pub fn deliver_flush(&mut self, fd: u64, ok: bool) -> (r: Option<ConnectionStatus>)
        requires
            old(self).inv(),
        ensures
            final(self).inv(),
            match r {
                Some(st) => old(self)@.contains_key(fd) && final(self)@ == old(self)@.insert(
                    fd,
                    step_flush_spec(old(self)@[fd], ok),
                ) && st == status_of(step_flush_spec(old(self)@[fd], ok)),
                None => !old(self)@.contains_key(fd) && final(self)@ == old(self)@,
            },
    {
        let c = match self.take(fd) {
            None => {
                return None;
            },
            Some(c) => c,
        };
        let (c2, st) = c.on_flush_event(ok);
        self.put(fd, c2);
        proof {
            assert(old(self)@.remove(fd).insert(fd, c2@) =~= old(self)@.insert(fd, c2@));
        }
        Some(st)
    }

    /// The readiness interest of the connection under `fd`.
    pub fn interest_of(&self, fd: u64) -> (r: Option<Interest>)
        requires
            self.inv(),
        ensures
            match r {
                Some(it) => self@.contains_key(fd) && it == crate::connection::interest_of(
                    self@[fd],
                ),
                None => !self@.contains_key(fd),
            },
    {
        let n = self.entries.len();
        let mut i: usize = 0;
        while i < n
            invariant
                self.inv(),
                n == self.entries@.len(),
                i <= n,
                forall|k: int| 0 <= k < i ==> (#[trigger] self.entries@[k]).0 != fd,
            decreases n - i,
        {
            if self.entries[i].0 == fd {
                proof {
                    lemma_map_of_value(self.entries@, i as int);
                }
                let it = self.entries[i].1.interest();
                return Some(it);
            }
            i = i + 1;
        }
        proof {
            lemma_map_of_contains(self.entries@, fd);
        }
        None
    }

    /// Removes every finished or failed connection, answering their
    /// descriptors so the loop can deregister and close them. Afterwards
    /// the table holds exactly the still-live connections, unchanged.
    pub fn cleanup(&mut self) -> (r: Vec<u64>)
        requires
            old(self).inv(),
        ensures
            final(self).inv(),
            forall|k: u64|
                #[trigger] final(self)@.contains_key(k) <==> (old(self)@.contains_key(k)
                    && !is_terminal(old(self)@[k])),
            forall|k: u64|
                #[trigger] final(self)@.contains_key(k) ==> final(self)@[k] == old(self)@[k],
            forall|k: u64|
                r@.contains(k) <==> (#[trigger] old(self)@.contains_key(k) && is_terminal(
                    old(self)@[k],
                )),
    {
        let ghost m0 = map_of(self.entries@);
        let mut kept: Vec<(u64, Conn)> = Vec::new();
        let mut closed: Vec<u64> = Vec::new();
        proof {
            assert(map_of(kept@) =~= Map::<u64, ConnV>::empty());
        }
        while self.entries.len() > 0
            invariant
                distinct_keys(self.entries@),
                entries_wf(self.entries@),
                distinct_keys(kept@),
                entries_wf(kept@),
                forall|k: u64|
                    !(map_of(self.entries@).contains_key(k) && map_of(kept@).contains_key(k)),
                forall|k: u64|
                    !(map_of(self.entries@).contains_key(k) && closed@.contains(k)),
                forall|k: u64| !(map_of(kept@).contains_key(k) && closed@.contains(k)),
                forall|k: u64|
                    #[trigger] m0.contains_key(k) <==> (map_of(self.entries@).contains_key(k)
                        || map_of(kept@).contains_key(k) || closed@.contains(k)),
                forall|k: u64|
                    #[trigger] map_of(self.entries@).contains_key(k) ==> m0.contains_key(k)
                        && m0[k] == map_of(self.entries@)[k],
                forall|k: u64|
                    #[trigger] map_of(kept@).contains_key(k) ==> m0.contains_key(k) && m0[k]
                        == map_of(kept@)[k] && !is_terminal(m0[k]),
                forall|k: u64| closed@.contains(k) ==> m0.contains_key(k) && is_terminal(m0[k]),
            decreases self.entries@.len(),
        {
            let ghost before = self.entries@;
            match self.entries.pop() {
                None => {},
                Some(pair) => {
                    proof {
                        assert(before.drop_last() =~= self.entries@);
                        assert(pair == before.last());
                        assert(map_of(before) == map_of(self.entries@).insert(pair.0, pair.1@));
                        lemma_map_of_contains(self.entries@, pair.0);
                        if map_of(self.entries@).contains_key(pair.0) {
                            let i = choose|i: int|
                                0 <= i < self.entries@.len() && (#[trigger] self.entries@[i]).0
                                    == pair.0;
                            assert(before[i].0 == before[before.len() - 1].0);
                            assert(false);
                        }
                        assert(wf(pair.1@)) by {
                            assert(before[before.len() - 1].1@ == pair.1@);
                            assert(entries_wf(before));
                        }
                        assert forall|i: int| 0 <= i < self.entries@.len() implies wf(
                            (#[trigger] self.entries@[i]).1@,
                        ) by {
                            assert(before[i] == self.entries@[i]);
                            assert(entries_wf(before));
                        }
                        assert(map_of(before).contains_key(pair.0));
                        assert(m0.contains_key(pair.0) && m0[pair.0] == pair.1@);
                        assert forall|k: u64|
                            #[trigger] map_of(self.entries@).contains_key(k) implies m0.contains_key(
                            k,
                        ) && m0[k] == map_of(self.entries@)[k] by {
                            assert(k != pair.0);
                            assert(map_of(before).contains_key(k));
                            assert(map_of(before)[k] == map_of(self.entries@)[k]);
                        }
                    }
                    let st = pair.1.status();
                    let terminal = match st {
                        ConnectionStatus::Complete => true,
                        ConnectionStatus::Error => true,
                        ConnectionStatus::WouldBlock => false,
                    };
                    if terminal {
                        let ghost closed0 = closed@;
                        closed.push(pair.0);
                        proof {
                            assert(is_terminal(pair.1@));
                            assert forall|k: u64| #[trigger] closed@.contains(k) implies
                                m0.contains_key(k) && is_terminal(m0[k]) by {
                                let i = choose|i: int| 0 <= i < closed@.len() && closed@[i] == k;
                                if i < closed@.len() - 1 {
                                    assert(closed0[i] == k);
                                    assert(closed0.contains(k));
                                }
                            }
                            assert forall|k: u64| #[trigger] closed@.contains(k) implies
                                !map_of(self.entries@).contains_key(k) && !map_of(kept@).contains_key(k) by {
                                let i = choose|i: int| 0 <= i < closed@.len() && closed@[i] == k;
                                if i < closed@.len() - 1 {
                                    assert(closed0[i] == k);
                                    assert(closed0.contains(k));
                                } else {
                                    assert(k == pair.0);
                                }
                            }
                            assert forall|k: u64| #[trigger] m0.contains_key(k) implies
                                (map_of(self.entries@).contains_key(k) || map_of(kept@).contains_key(k)
                                    || closed@.contains(k)) by {
                                if !map_of(self.entries@).contains_key(k) && !map_of(kept@).contains_key(k) {
                                    if k == pair.0 {
                                        assert(closed@[closed@.len() - 1] == k);
                                    } else {
                                        assert(map_of(before).contains_key(k) || map_of(kept@).contains_key(k)
                                            || closed0.contains(k));
                                        if closed0.contains(k) {
                                            let i = choose|i: int| 0 <= i < closed0.len() && closed0[i] == k;
                                            assert(closed@[i] == k);
                                        }
                                    }
                                }
                            }
                            assert forall|k: u64| (map_of(self.entries@).contains_key(k)
                                || map_of(kept@).contains_key(k) || closed@.contains(k)) implies
                                #[trigger] m0.contains_key(k) by {
                                if closed@.contains(k) {
                                }
                            }
                        }
                    } else {
                        let ghost kept0 = kept@;
                        proof {
                            lemma_map_of_contains(kept0, pair.0);
                        }
                        kept.push(pair);
                        proof {
                            assert(kept@.drop_last() =~= kept0);
                            assert(map_of(kept@) == map_of(kept0).insert(pair.0, pair.1@));
                            assert forall|i: int, j: int|
                                0 <= i < j < kept@.len() implies (#[trigger] kept@[i]).0 != (
                            #[trigger] kept@[j]).0 by {
                                if j == kept@.len() - 1 {
                                    if kept@[i].0 == pair.0 {
                                        assert(kept0[i].0 == pair.0);
                                        lemma_map_of_contains(kept0, pair.0);
                                    }
                                } else {
                                    assert(kept0[i] == kept@[i]);
                                    assert(kept0[j] == kept@[j]);
                                }
                            }
                            assert forall|i: int| 0 <= i < kept@.len() implies wf(
                                (#[trigger] kept@[i]).1@,
                            ) by {
                                if i < kept@.len() - 1 {
                                    assert(kept0[i] == kept@[i]);
                                }
                            }
                            assert(!is_terminal(pair.1@));
                            assert forall|k: u64|
                                #[trigger] map_of(kept@).contains_key(k) implies m0.contains_key(k)
                                && m0[k] == map_of(kept@)[k] && !is_terminal(m0[k]) by {
                                if k != pair.0 {
                                    assert(map_of(kept0).contains_key(k));
                                    assert(map_of(kept0)[k] == map_of(kept@)[k]);
                                }
                            }
                        }
                    }
                },
            }
        }
        proof {
            assert(self.entries@.len() == 0);
            assert(map_of(self.entries@) =~= Map::<u64, ConnV>::empty());
        }
        self.entries = kept;
        closed
    }
}

} // verus!
