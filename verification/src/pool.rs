use vstd::prelude::*;
use crate::key::{Key, KeyView};

verus! {

/// A cloneable handle to an established connection's request channel.
/// `conn` identifies the underlying connection driver; every handle
/// handed out for one establishment carries the same identifier.
#[derive(Clone, Copy, PartialEq, Eq, Structural, Debug)]
pub struct PoolClient {
    pub conn: u64,
}

/// The exclusive right to drive establishment of one key's connection.
/// Obtained only from `Pool::connecting`; consumed by
/// `Pool::new_connection` on success or `Pool::abandon` on failure.
pub struct ConnectLock {
    key: Key,
}

impl ConnectLock {
    /// The key this lock establishes.
    pub closed spec fn key_view(&self) -> KeyView {
        self.key@
    }

    /// The key this lock establishes.
    pub fn key(&self) -> (r: &Key)
        ensures
            r@ == self.key_view(),
    {
        &self.key
    }
}

/// A subscription to the outcome of another caller's in-flight
/// establishment of the same key.
pub struct WaiterReceipt {
    key: Key,
    id: u64,
}

impl WaiterReceipt {
    /// The key awaited.
    pub closed spec fn key_view(&self) -> KeyView {
        self.key@
    }

    /// The waiter's identity within the pool.
    pub closed spec fn wid(&self) -> u64 {
        self.id
    }

    /// The key awaited.
    pub fn key(&self) -> (r: &Key)
        ensures
            r@ == self.key_view(),
    {
        &self.key
    }
}

/// What `Pool::connecting` grants: the establishment lock, or a
/// waiter subscribed to the in-flight establishment.
pub enum Connecting {
    Acquired(ConnectLock),
    InProgress(WaiterReceipt),
}

/// The client service's decision for one request after consulting
/// the pool.
pub enum PoolStep {
    /// A live idle connection exists; use this shared handle.
    Reuse(PoolClient),
    /// No usable entry existed; the caller holds the lock and must
    /// drive establishment.
    Establish(ConnectLock),
    /// Another caller is establishing this key; await its outcome.
    Await(WaiterReceipt),
}

/// What a waiter observes when it polls its receipt.
#[derive(Clone, Copy, PartialEq, Eq, Structural, Debug)]
pub enum WaiterStatus {
    /// The establishment is still in flight.
    Pending,
    /// The establishment succeeded; this handle shares its connection.
    Ready(PoolClient),
    /// The establishment failed or was abandoned.
    Failed,
}

/// One key's pool entry.
pub enum Entry {
    /// An establishment is in flight; `waiters` are subscribed to its
    /// outcome.
    Connecting { waiters: Vec<u64> },
    /// A live connection, ready for reuse.
    Idle { conn: u64, stored: u64 },
}

/// Mathematical value of an `Entry`.
#[verifier::ext_equal]
pub enum EntryView {
    Connecting { waiters: Seq<u64> },
    Idle { conn: u64, stored: u64 },
}

impl View for Entry {
    type V = EntryView;

    open spec fn view(&self) -> EntryView {
        match self {
            Entry::Connecting { waiters } => EntryView::Connecting { waiters: waiters@ },
            Entry::Idle { conn, stored } => EntryView::Idle { conn: *conn, stored: *stored },
        }
    }
}

/// The keyed store of established and in-flight connections. All
/// shared state of the core lives here; the four operations
/// (`try_pool`, `connecting`, `new_connection`, `abandon`) are its
/// only mutators.
pub struct Pool {
    timeout: Option<u64>,
    entries: Vec<(Key, Entry)>,
    next_waiter: u64,
    done: Vec<(u64, Option<u64>)>,
}

/// The mapping an entry list denotes; later entries would win, and
/// the pool keeps keys unique.
spec fn map_of(s: Seq<(Key, Entry)>) -> Map<KeyView, EntryView>
    decreases s.len(),
{
    if s.len() == 0 {
        Map::empty()
    } else {
        map_of(s.drop_last()).insert(s.last().0@, s.last().1@)
    }
}

/// The terminal outcome recorded for a waiter id, first record wins:
/// `Some(Some(conn))` success, `Some(None)` failure, `None` not yet
/// recorded.
spec fn done_find(s: Seq<(u64, Option<u64>)>, id: u64) -> Option<Option<u64>>
    decreases s.len(),
{
    if s.len() == 0 {
        None
    } else {
        match done_find(s.drop_last(), id) {
            Some(v) => Some(v),
            None => if s.last().0 == id {
                Some(s.last().1)
            } else {
                None
            },
        }
    }
}

/// Linear search for a waiter id.
fn contains_id(ids: &Vec<u64>, id: u64) -> (r: bool)
    ensures
        r == ids@.contains(id),
{
    let mut i: usize = 0;
    let n = ids.len();
    while i < n
        invariant
            i <= n == ids@.len(),
            forall|j: int| 0 <= j < i ==> ids@[j] != id,
        decreases n - i,
    {
        if ids[i] == id {
            return true;
        }
        i += 1;
    }
    false
}

proof fn lemma_map_of_contains(s: Seq<(Key, Entry)>, kv: KeyView)
    ensures
        map_of(s).contains_key(kv) <==> exists|i: int| 0 <= i < s.len() && #[trigger] s[i].0@ == kv,
    decreases s.len(),
{
    if s.len() == 0 {
    } else {
        lemma_map_of_contains(s.drop_last(), kv);
        let t = s.drop_last();
        if map_of(s).contains_key(kv) {
            if s.last().0@ == kv {
                assert(s[s.len() - 1].0@ == kv);
            } else {
                let i = choose|i: int| 0 <= i < t.len() && #[trigger] t[i].0@ == kv;
                assert(s[i].0@ == kv);
            }
        }
        if exists|i: int| 0 <= i < s.len() && #[trigger] s[i].0@ == kv {
            let i = choose|i: int| 0 <= i < s.len() && #[trigger] s[i].0@ == kv;
            if i < s.len() - 1 {
                assert(t[i].0@ == kv);
            }
        }
    }
}

proof fn lemma_map_of_remove(s: Seq<(Key, Entry)>, i: int)
    requires
        0 <= i < s.len(),
        forall|a: int, b: int| 0 <= a < b < s.len() ==> s[a].0@ != s[b].0@,
    ensures
        map_of(s.remove(i)) == map_of(s).remove(s[i].0@),
    decreases s.len(),
{
    let kv = s[i].0@;
    let t = s.drop_last();
    if i == s.len() - 1 {
        assert(s.remove(i) =~= t);
        lemma_map_of_contains(t, kv);
        assert(forall|j: int| 0 <= j < t.len() ==> t[j].0@ != kv);
        assert(!map_of(t).contains_key(kv));
        assert(map_of(t).insert(kv, s.last().1@).remove(kv) =~= map_of(t));
    } else {
        lemma_map_of_remove(t, i);
        assert(s.remove(i).drop_last() =~= t.remove(i));
        assert(s.remove(i).last() == s.last());
        assert(map_of(s.remove(i)) == map_of(t.remove(i)).insert(s.last().0@, s.last().1@));
        assert(s.last().0@ != kv);
        assert(map_of(t).remove(kv).insert(s.last().0@, s.last().1@) =~= map_of(t).insert(
            s.last().0@,
            s.last().1@,
        ).remove(kv));
    }
}

proof fn lemma_done_find_absent(s: Seq<(u64, Option<u64>)>, id: u64)
    requires
        forall|a: int| 0 <= a < s.len() ==> (#[trigger] s[a]).0 != id,
    ensures
        done_find(s, id) is None,
    decreases s.len(),
{
    if s.len() > 0 {
        lemma_done_find_absent(s.drop_last(), id);
        assert(s.last() == s[s.len() - 1]);
    }
}

proof fn lemma_done_find_concat(s: Seq<(u64, Option<u64>)>, t: Seq<(u64, Option<u64>)>, id: u64)
    ensures
        done_find(s + t, id) == (match done_find(s, id) {
            Some(v) => Some(v),
            None => done_find(t, id),
        }),
    decreases t.len(),
{
    if t.len() == 0 {
        assert(s + t =~= s);
    } else {
        lemma_done_find_concat(s, t.drop_last(), id);
        assert((s + t).drop_last() =~= s + t.drop_last());
        assert((s + t).last() == t.last());
    }
}

proof fn lemma_done_find_same_value(t: Seq<(u64, Option<u64>)>, v: Option<u64>, id: u64)
    requires
        forall|a: int| 0 <= a < t.len() ==> (#[trigger] t[a]).1 == v,
    ensures
        done_find(t, id) == (if exists|a: int| 0 <= a < t.len() && (#[trigger] t[a]).0 == id {
            Some(v)
        } else {
            None
        }),
    decreases t.len(),
{
    if t.len() > 0 {
        lemma_done_find_same_value(t.drop_last(), v, id);
        let u = t.drop_last();
        if exists|a: int| 0 <= a < u.len() && (#[trigger] u[a]).0 == id {
            let a = choose|a: int| 0 <= a < u.len() && (#[trigger] u[a]).0 == id;
            assert(t[a].0 == id);
        } else if t.last().0 == id {
            assert(t[t.len() - 1].0 == id);
        } else {
            if exists|a: int| 0 <= a < t.len() && (#[trigger] t[a]).0 == id {
                let a = choose|a: int| 0 <= a < t.len() && (#[trigger] t[a]).0 == id;
                assert(u[a].0 == id);
            }
        }
    }
}

proof fn lemma_done_find_unique(s: Seq<(u64, Option<u64>)>, a: int, id: u64)
    requires
        forall|x: int, y: int|
            0 <= x < y < s.len() ==> (#[trigger] s[x]).0 != (#[trigger] s[y]).0,
        0 <= a < s.len(),
        s[a].0 == id,
    ensures
        done_find(s, id) == Some(s[a].1),
    decreases s.len(),
{
    let t = s.drop_last();
    if a == s.len() - 1 {
        assert(forall|x: int| 0 <= x < t.len() ==> (#[trigger] t[x]).0 != id);
        lemma_done_find_absent(t, id);
    } else {
        lemma_done_find_unique(t, a, id);
    }
}

proof fn lemma_map_of_index(s: Seq<(Key, Entry)>, i: int)
    requires
        0 <= i < s.len(),
        forall|a: int, b: int| 0 <= a < b < s.len() ==> s[a].0@ != s[b].0@,
    ensures
        map_of(s).contains_key(s[i].0@),
        map_of(s)[s[i].0@] == s[i].1@,
    decreases s.len(),
{
    lemma_map_of_contains(s, s[i].0@);
    if i == s.len() - 1 {
    } else {
        let t = s.drop_last();
        lemma_map_of_index(t, i);
        assert(s.last().0@ != s[i].0@);
    }
}

impl Pool {
    /// The idle-connection timeout this pool was created with.
    pub closed spec fn spec_timeout(self) -> Option<u64> {
        self.timeout
    }

    /// The key-to-entry mapping the pool currently holds.
    pub closed spec fn entries_map(self) -> Map<KeyView, EntryView> {
        map_of(self.entries@)
    }

    /// The terminal outcome recorded for a waiter id, if any.
    pub closed spec fn resolution(self, id: u64) -> Option<Option<u64>> {
        done_find(self.done@, id)
    }

    /// Upper bound on every waiter id the pool has issued.
    pub closed spec fn waiter_bound(self) -> u64 {
        self.next_waiter
    }

    /// Waiter `id` is registered against an in-flight entry at `kv`.
    pub open spec fn pending_at(self, kv: KeyView, id: u64) -> bool {
        &&& self.entries_map().contains_key(kv)
        &&& self.entries_map()[kv] matches EntryView::Connecting { waiters }
            && waiters.contains(id)
    }

    /// An idle entry stored at `stored` is still live at `now`.
    pub open spec fn fresh(self, stored: u64, now: u64) -> bool {
        match self.spec_timeout() {
            None => true,
            Some(t) => now <= stored + t,
        }
    }

    /// The connection `try_pool` hands out at `now`, if any: the live
    /// idle entry of the key.
    pub open spec fn spec_try_pool(self, kv: KeyView, now: u64) -> Option<u64> {
        if self.entries_map().contains_key(kv) {
            match self.entries_map()[kv] {
                EntryView::Idle { conn, stored } => if self.fresh(stored, now) {
                    Some(conn)
                } else {
                    None
                },
                _ => None,
            }
        } else {
            None
        }
    }

    /// The waiters of an in-flight entry; an idle entry has none.
    pub closed spec fn waiters_of(self, i: int) -> Seq<u64> {
        match self.entries@[i].1@ {
            EntryView::Connecting { waiters } => waiters,
            EntryView::Idle { .. } => Seq::empty(),
        }
    }

    /// Internal well-formedness: keys unique; waiter ids unique,
    /// issued below `waiter_bound`, never both pending and resolved,
    /// and pending under at most one key; resolved ids unique.
    pub closed spec fn wf(self) -> bool {
        &&& forall|a: int, b: int|
            0 <= a < b < self.entries@.len() ==> self.entries@[a].0@ != self.entries@[b].0@
        &&& forall|i: int, a: int, b: int|
            (0 <= i < self.entries@.len() && 0 <= a < b < self.waiters_of(i).len()) ==> #[trigger] self.waiters_of(
                i,
            )[a] != #[trigger] self.waiters_of(i)[b]
        &&& forall|i: int, j: int, a: int, b: int|
            (0 <= i < self.entries@.len() && 0 <= j < self.entries@.len() && i != j && 0 <= a
                < self.waiters_of(i).len() && 0 <= b < self.waiters_of(j).len())
                ==> #[trigger] self.waiters_of(i)[a] != #[trigger] self.waiters_of(j)[b]
        &&& forall|i: int, a: int|
            (0 <= i < self.entries@.len() && 0 <= a < self.waiters_of(i).len())
                ==> #[trigger] self.waiters_of(i)[a] < self.next_waiter && done_find(
                self.done@,
                self.waiters_of(i)[a],
            ) is None
        &&& forall|a: int, b: int|
            0 <= a < b < self.done@.len() ==> (#[trigger] self.done@[a]).0 != (
            #[trigger] self.done@[b]).0
        &&& forall|a: int|
            0 <= a < self.done@.len() ==> (#[trigger] self.done@[a]).0 < self.next_waiter
    }

    /// Creates an empty pool with the given idle timeout.
    pub fn new(timeout: Option<u64>) -> (r: Pool)
        ensures
            r.wf(),
            r.spec_timeout() == timeout,
            r.entries_map() == Map::<KeyView, EntryView>::empty(),
            r.waiter_bound() == 0,
            forall|id: u64| r.resolution(id) is None,
    {
        Pool { timeout, entries: Vec::new(), next_waiter: 0, done: Vec::new() }
    }

    /// Whether another waiter id can still be issued.
    pub fn can_register(&self) -> (r: bool)
        ensures
            r == (self.waiter_bound() < u64::MAX),
    {
        self.next_waiter < u64::MAX
    }

    /// Index of the key's entry, if present.
    fn find(&self, key: &Key) -> (r: Option<usize>)
        ensures
            match r {
                Some(i) => i < self.entries@.len() && self.entries@[i as int].0@ == key@,
                None => forall|i: int|
                    0 <= i < self.entries@.len() ==> self.entries@[i].0@ != key@,
            },
    {
        let mut i: usize = 0;
        let n = self.entries.len();
        while i < n
            invariant
                i <= n == self.entries@.len(),
                forall|j: int| 0 <= j < i ==> self.entries@[j].0@ != key@,
            decreases n - i,
        {
            if self.entries[i].0.key_eq(key) {
                return Some(i);
            }
            i += 1;
        }
        None
    }

    /// Non-blocking lookup: a cloned handle iff a live idle entry
    /// exists for the key at `now`. An expired idle entry behaves as
    /// absent.
    pub fn try_pool(&self, key: &Key, now: u64) -> (r: Option<PoolClient>)
        requires
            self.wf(),
        ensures
            match r {
                Some(c) => self.spec_try_pool(key@, now) == Some(c.conn),
                None => self.spec_try_pool(key@, now) is None,
            },
    {
        proof {
            lemma_map_of_contains(self.entries@, key@);
        }
        match self.find(key) {
            None => None,
            Some(i) => {
                proof {
                    lemma_map_of_index(self.entries@, i as int);
                }
                match &self.entries[i].1 {
                    Entry::Idle { conn, stored } => {
                        let live: bool = match self.timeout {
                            None => true,
                            Some(t) => {
                                if now <= *stored {
                                    true
                                } else {
                                    now - *stored <= t
                                }
                            }
                        };
                        if live {
                            Some(PoolClient { conn: *conn })
                        } else {
                            None
                        }
                    }
                    Entry::Connecting { .. } => None,
                }
            }
        }
    }

    /// Single-flight arbitration for a key with no usable idle entry.
    /// If an establishment for the key is already in flight, registers
    /// and returns a fresh waiter subscribed to its outcome — never a
    /// second lock. Otherwise (the key is absent, or only an idle
    /// entry remains, which is discarded) creates the in-flight entry
    /// and grants the caller the exclusive `ConnectLock`.
    pub fn connecting(&mut self, key: &Key) -> (r: Connecting)
        requires
            old(self).wf(),
            old(self).waiter_bound() < u64::MAX,
        ensures
            final(self).wf(),
            final(self).spec_timeout() == old(self).spec_timeout(),
            forall|id: u64| final(self).resolution(id) == old(self).resolution(id),
            (match r {
                Connecting::InProgress(w) => {
                    &&& old(self).entries_map().contains_key(key@)
                    &&& old(self).entries_map()[key@] is Connecting
                    &&& w.key_view() == key@
                    &&& w.wid() == old(self).waiter_bound()
                    &&& final(self).waiter_bound() == old(self).waiter_bound() + 1
                    &&& old(self).entries_map()[key@] matches EntryView::Connecting { waiters }
                        && final(self).entries_map() == old(self).entries_map().insert(
                        key@,
                        EntryView::Connecting { waiters: waiters.push(old(self).waiter_bound()) },
                    )
                }
                Connecting::Acquired(lock) => {
                    &&& !(old(self).entries_map().contains_key(key@) && old(self).entries_map()[key@]
                        is Connecting)
                    &&& lock.key_view() == key@
                    &&& final(self).waiter_bound() == old(self).waiter_bound()
                    &&& final(self).entries_map() == old(self).entries_map().insert(
                        key@,
                        EntryView::Connecting { waiters: Seq::empty() },
                    )
                }
            }),
    {
        proof {
            lemma_map_of_contains(self.entries@, key@);
        }
        let found = self.find(key);
        match found {
            Some(i) => {
                proof {
                    lemma_map_of_index(self.entries@, i as int);
                    lemma_map_of_remove(self.entries@, i as int);
                }
                let (k, e) = self.entries.remove(i);
                match e {
                    Entry::Connecting { mut waiters } => {
                        let ghost w0 = waiters@;
                        let id = self.next_waiter;
                        self.next_waiter = id + 1;
                        waiters.push(id);
                        self.entries.push((k, Entry::Connecting { waiters }));
                        proof {
                            assert(old(self).entries_map()[key@] == (EntryView::Connecting {
                                waiters: w0,
                            }));
                            assert(old(self).waiters_of(i as int) == w0);
                            assert(self.waiters_of(self.entries@.len() - 1) == w0.push(id));
                            self.lemma_after_replace(*old(self), i as int, key@);
                            assert(self.entries@.last().1@ == (EntryView::Connecting {
                                waiters: w0.push(id),
                            }));
                        }
                        Connecting::InProgress(WaiterReceipt { key: key.clone_key(), id })
                    }
                    Entry::Idle { .. } => {
                        self.entries.push((k, Entry::Connecting { waiters: Vec::new() }));
                        proof {
                            self.lemma_after_replace(*old(self), i as int, key@);
                        }
                        Connecting::Acquired(ConnectLock { key: key.clone_key() })
                    }
                }
            }
            None => {
                self.entries.push((key.clone_key(), Entry::Connecting { waiters: Vec::new() }));
                proof {
                    let s = old(self).entries@;
                    let s2 = self.entries@;
                    assert(s2.drop_last() =~= s);
                    assert(map_of(s2) == map_of(s).insert(key@, s2.last().1@));
                    assert(s2.last().1@ =~= (EntryView::Connecting { waiters: Seq::empty() }));
                    assert forall|j: int| 0 <= j < s2.len() - 1 implies self.waiters_of(j)
                        == old(self).waiters_of(j) by {}
                    assert(self.waiters_of(s2.len() - 1) =~= Seq::<u64>::empty());
                }
                Connecting::Acquired(ConnectLock { key: key.clone_key() })
            }
        }
    }

    /// Records one terminal outcome for every id in `waiters`, which
    /// must be fresh (unresolved, below the id bound, and pending
    /// nowhere) and mutually distinct.
    fn record_outcomes(&mut self, waiters: &Vec<u64>, outcome: Option<u64>)
        requires
            old(self).wf(),
            forall|a: int, b: int|
                0 <= a < b < waiters@.len() ==> waiters@[a] != waiters@[b],
            forall|a: int|
                0 <= a < waiters@.len() ==> old(self).resolution(#[trigger] waiters@[a]) is None
                    && waiters@[a] < old(self).waiter_bound(),
            forall|j: int, x: int, a: int|
                (0 <= j < old(self).entries@.len() && 0 <= x < old(self).waiters_of(j).len() && 0
                    <= a < waiters@.len()) ==> #[trigger] old(self).waiters_of(j)[x]
                    != #[trigger] waiters@[a],
        ensures
            final(self).wf(),
            final(self).entries@ == old(self).entries@,
            final(self).timeout == old(self).timeout,
            final(self).next_waiter == old(self).next_waiter,
            forall|a: int|
                0 <= a < waiters@.len() ==> final(self).resolution(#[trigger] waiters@[a])
                    == Some(outcome),
            forall|id: u64|
                !waiters@.contains(id) ==> final(self).resolution(id) == old(self).resolution(id),
    {
        let n = waiters.len();
        let mut w: usize = 0;
        while w < n
            invariant
                w <= n == waiters@.len(),
                self.entries@ == old(self).entries@,
                self.timeout == old(self).timeout,
                self.next_waiter == old(self).next_waiter,
                self.done@.len() == old(self).done@.len() + w,
                forall|a: int|
                    0 <= a < old(self).done@.len() ==> #[trigger] self.done@[a] == old(
                        self,
                    ).done@[a],
                forall|a: int|
                    0 <= a < w ==> #[trigger] self.done@[old(self).done@.len() + a] == (
                    waiters@[a],
                    outcome,
                ),
            decreases n - w,
        {
            let id = waiters[w];
            self.done.push((id, outcome));
            w += 1;
        }
        proof {
            let ghost batch = Seq::new(
                waiters@.len(),
                |a: int| (waiters@[a], outcome),
            );
            let pre = *old(self);
            assert forall|x: int| 0 <= x < self.done@.len() implies self.done@[x] == (pre.done@
                + batch)[x] by {
                if x >= pre.done@.len() {
                    let a = x - pre.done@.len();
                    assert(self.done@[old(self).done@.len() + a] == (waiters@[a], outcome));
                }
            }
            assert(self.done@ =~= pre.done@ + batch);
            assert forall|id: u64| true implies self.resolution(id) == (match pre.resolution(id) {
                Some(v) => Some(v),
                None => if waiters@.contains(id) {
                    Some(outcome)
                } else {
                    None
                },
            }) by {
                lemma_done_find_concat(pre.done@, batch, id);
                lemma_done_find_same_value(batch, outcome, id);
                if waiters@.contains(id) {
                    let a = choose|a: int| 0 <= a < waiters@.len() && waiters@[a] == id;
                    assert(batch[a].0 == id);
                    assert(pre.resolution(id) is None);
                } else {
                    if exists|a: int| 0 <= a < batch.len() && (#[trigger] batch[a]).0 == id {
                        let a = choose|a: int| 0 <= a < batch.len() && (#[trigger] batch[a]).0
                            == id;
                        assert(waiters@[a] == id);
                    }
                }
            }
            assert forall|a: int, b: int| 0 <= a < b < self.done@.len() implies (
            #[trigger] self.done@[a]).0 != (#[trigger] self.done@[b]).0 by {
                let m = pre.done@.len() as int;
                if a < m && b >= m {
                    assert(self.done@[b].0 == waiters@[b - m]);
                    assert(pre.resolution(waiters@[b - m]) is None);
                    if self.done@[a].0 == waiters@[b - m] {
                        lemma_done_find_unique(pre.done@, a, pre.done@[a].0);
                    }
                } else if a >= m {
                    assert(self.done@[a].0 == waiters@[a - m]);
                    assert(self.done@[b].0 == waiters@[b - m]);
                }
            }
            assert forall|j: int, a: int|
                (0 <= j < self.entries@.len() && 0 <= a < self.waiters_of(j).len()) implies
                #[trigger] self.waiters_of(j)[a] < self.next_waiter && done_find(
                self.done@,
                self.waiters_of(j)[a],
            ) is None by {
                assert(self.waiters_of(j) == pre.waiters_of(j));
                let id = self.waiters_of(j)[a];
                lemma_done_find_concat(pre.done@, batch, id);
                lemma_done_find_same_value(batch, outcome, id);
                if exists|x: int| 0 <= x < batch.len() && (#[trigger] batch[x]).0 == id {
                    let x = choose|x: int| 0 <= x < batch.len() && (#[trigger] batch[x]).0 == id;
                    assert(waiters@[x] == id);
                }
            }
            assert forall|j: int| 0 <= j < self.entries@.len() implies self.waiters_of(j)
                == pre.waiters_of(j) by {}
            assert forall|a: int| 0 <= a < self.done@.len() implies (#[trigger] self.done@[a]).0
                < self.next_waiter by {
                if a >= pre.done@.len() {
                    assert(self.done@[a] == batch[a - pre.done@.len()]);
                }
            }
            assert forall|i: int, a: int, b: int|
                (0 <= i < self.entries@.len() && 0 <= a < b < self.waiters_of(i).len()) implies
                #[trigger] self.waiters_of(i)[a] != #[trigger] self.waiters_of(i)[b] by {
                assert(self.waiters_of(i) == pre.waiters_of(i));
                assert(pre.waiters_of(i)[a] != pre.waiters_of(i)[b]);
            }
            assert forall|i: int, j: int, a: int, b: int|
                (0 <= i < self.entries@.len() && 0 <= j < self.entries@.len() && i != j && 0 <= a
                    < self.waiters_of(i).len() && 0 <= b < self.waiters_of(j).len()) implies
                #[trigger] self.waiters_of(i)[a] != #[trigger] self.waiters_of(j)[b] by {
                assert(self.waiters_of(i) == pre.waiters_of(i));
                assert(self.waiters_of(j) == pre.waiters_of(j));
                assert(pre.waiters_of(i)[a] != pre.waiters_of(j)[b]);
            }
        }
    }

    /// Completes an establishment: consumes the lock, stores the new
    /// connection as the key's idle entry at `now`, resolves every
    /// waiter registered against the key with its own clone of the
    /// handle, and returns the holder's handle.
    pub fn new_connection(&mut self, lock: ConnectLock, conn: u64, now: u64) -> (r: PoolClient)
        requires
            old(self).wf(),
        ensures
            final(self).wf(),
            final(self).spec_timeout() == old(self).spec_timeout(),
            final(self).waiter_bound() == old(self).waiter_bound(),
            r == (PoolClient { conn }),
            final(self).entries_map() == old(self).entries_map().insert(
                lock.key_view(),
                EntryView::Idle { conn, stored: now },
            ),
            forall|id: u64|
                old(self).pending_at(lock.key_view(), id) ==> final(self).resolution(id)
                    == Some(Some(conn)),
            forall|id: u64|
                !old(self).pending_at(lock.key_view(), id) ==> final(self).resolution(id) == old(
                    self,
                ).resolution(id),
    {
        let ConnectLock { key } = lock;
        proof {
            lemma_map_of_contains(self.entries@, key@);
        }
        let found = self.find(&key);
        match found {
            Some(i) => {
                proof {
                    lemma_map_of_index(self.entries@, i as int);
                }
                let (k, e) = self.entries.remove(i);
                self.entries.push((k, Entry::Idle { conn, stored: now }));
                proof {
                    self.lemma_after_replace(*old(self), i as int, key@);
                    assert(self.waiters_of(self.entries@.len() - 1) =~= Seq::<u64>::empty());
                }
                let ghost mid = *self;
                match e {
                    Entry::Connecting { waiters } => {
                        proof {
                            assert(old(self).waiters_of(i as int) == waiters@);
                            assert(old(self).entries_map()[key@] == (EntryView::Connecting {
                                waiters: waiters@,
                            }));
                            assert forall|j: int| 0 <= j < mid.entries@.len() - 1 implies
                                mid.waiters_of(j) == old(self).waiters_of(
                                if j < i as int {
                                    j
                                } else {
                                    j + 1
                                },
                            ) by {}
                            assert forall|j: int, x: int, a: int|
                                (0 <= j < mid.entries@.len() && 0 <= x < mid.waiters_of(j).len()
                                    && 0 <= a < waiters@.len()) implies #[trigger] mid.waiters_of(
                                j,
                            )[x] != #[trigger] waiters@[a] by {
                                if j < mid.entries@.len() - 1 {
                                    let jj = if j < i as int {
                                        j
                                    } else {
                                        j + 1
                                    };
                                    assert(mid.waiters_of(j)[x] == old(self).waiters_of(jj)[x]);
                                }
                            }
                        }
                        self.record_outcomes(&waiters, Some(conn));
                        proof {
                            assert forall|id: u64|
                                old(self).pending_at(key@, id) implies self.resolution(id)
                                == Some(Some(conn)) by {
                                let a = choose|a: int|
                                    0 <= a < waiters@.len() && waiters@[a] == id;
                            }
                        }
                    }
                    Entry::Idle { .. } => {
                        proof {
                            assert(forall|id: u64| !old(self).pending_at(key@, id));
                        }
                    }
                }
            }
            None => {
                self.entries.push((key, Entry::Idle { conn, stored: now }));
                proof {
                    let s = old(self).entries@;
                    let s2 = self.entries@;
                    assert(s2.drop_last() =~= s);
                    assert(map_of(s2) == map_of(s).insert(s2.last().0@, s2.last().1@));
                    assert forall|j: int| 0 <= j < s2.len() - 1 implies self.waiters_of(j) == old(
                        self,
                    ).waiters_of(j) by {}
                    assert(self.waiters_of(s2.len() - 1) =~= Seq::<u64>::empty());
                    assert(forall|id: u64| !old(self).pending_at(key@, id));
                }
            }
        }
        PoolClient { conn }
    }

    /// Releases the lock without a connection, as the establisher's
    /// drop guard does when it is cancelled or every address failed:
    /// removes the key's in-flight entry and resolves every waiter
    /// registered against it with failure, so none is left pending.
    /// A later `connecting` for the key will grant a fresh lock.
    pub fn abandon(&mut self, lock: ConnectLock)
        requires
            old(self).wf(),
        ensures
            final(self).wf(),
            final(self).spec_timeout() == old(self).spec_timeout(),
            final(self).waiter_bound() == old(self).waiter_bound(),
            final(self).entries_map() == old(self).entries_map().remove(lock.key_view()),
            forall|id: u64|
                old(self).pending_at(lock.key_view(), id) ==> final(self).resolution(id)
                    == Some(None::<u64>),
            forall|id: u64|
                !old(self).pending_at(lock.key_view(), id) ==> final(self).resolution(id) == old(
                    self,
                ).resolution(id),
    {
        let ConnectLock { key } = lock;
        proof {
            lemma_map_of_contains(self.entries@, key@);
        }
        let found = self.find(&key);
        match found {
            Some(i) => {
                proof {
                    lemma_map_of_index(self.entries@, i as int);
                    lemma_map_of_remove(self.entries@, i as int);
                }
                let (_k, e) = self.entries.remove(i);
                let ghost mid = *self;
                proof {
                    assert forall|j: int| 0 <= j < mid.entries@.len() implies mid.waiters_of(j)
                        == old(self).waiters_of(
                        if j < i as int {
                            j
                        } else {
                            j + 1
                        },
                    ) by {}
                    assert forall|a: int, b: int|
                        0 <= a < b < mid.entries@.len() implies mid.entries@[a].0@
                        != mid.entries@[b].0@ by {}
                }
                match e {
                    Entry::Connecting { waiters } => {
                        proof {
                            assert(old(self).waiters_of(i as int) == waiters@);
                            assert(old(self).entries_map()[key@] == (EntryView::Connecting {
                                waiters: waiters@,
                            }));
                            assert forall|j: int, x: int, a: int|
                                (0 <= j < mid.entries@.len() && 0 <= x < mid.waiters_of(j).len()
                                    && 0 <= a < waiters@.len()) implies #[trigger] mid.waiters_of(
                                j,
                            )[x] != #[trigger] waiters@[a] by {
                                let jj = if j < i as int {
                                    j
                                } else {
                                    j + 1
                                };
                                assert(mid.waiters_of(j)[x] == old(self).waiters_of(jj)[x]);
                            }
                        }
                        self.record_outcomes(&waiters, None);
                        proof {
                            assert forall|id: u64|
                                old(self).pending_at(key@, id) implies self.resolution(id)
                                == Some(None::<u64>) by {
                                let a = choose|a: int|
                                    0 <= a < waiters@.len() && waiters@[a] == id;
                            }
                        }
                    }
                    Entry::Idle { .. } => {
                        proof {
                            assert(forall|id: u64| !old(self).pending_at(key@, id));
                        }
                    }
                }
            }
            None => {
                proof {
                    assert(!old(self).entries_map().contains_key(key@));
                    assert(old(self).entries_map().remove(key@) =~= old(self).entries_map());
                    assert(forall|id: u64| !old(self).pending_at(key@, id));
                }
            }
        }
    }

    /// What the holder of a waiter receipt observes: still pending,
    /// ready with its own handle to the established connection, or
    /// failed. A waiter registered before the establishment finished
    /// observes its terminal outcome.
    pub fn waiter_status(&self, receipt: &WaiterReceipt) -> (r: WaiterStatus)
        requires
            self.wf(),
        ensures
            r == self.spec_status(receipt.key_view(), receipt.wid()),
    {
        proof {
            lemma_map_of_contains(self.entries@, receipt.key@);
        }
        match self.find(&receipt.key) {
            Some(i) => {
                proof {
                    lemma_map_of_index(self.entries@, i as int);
                }
                match &self.entries[i].1 {
                    Entry::Connecting { waiters } => {
                        if contains_id(waiters, receipt.id) {
                            return WaiterStatus::Pending;
                        }
                    }
                    Entry::Idle { .. } => {}
                }
            }
            None => {}
        }
        let n = self.done.len();
        let mut a: usize = 0;
        while a < n
            invariant
                a <= n == self.done@.len(),
                forall|j: int| 0 <= j < a ==> (#[trigger] self.done@[j]).0 != receipt.id,
                self.wf(),
                !self.pending_at(receipt.key_view(), receipt.wid()),
            decreases n - a,
        {
            let (id, v) = self.done[a];
            if id == receipt.id {
                proof {
                    lemma_done_find_unique(self.done@, a as int, receipt.id);
                }
                return match v {
                    Some(c) => WaiterStatus::Ready(PoolClient { conn: c }),
                    None => WaiterStatus::Failed,
                };
            }
            a += 1;
        }
        proof {
            lemma_done_find_absent(self.done@, receipt.id);
        }
        WaiterStatus::Failed
    }

    /// Shared outcome: once a waiter's establishment has resolved
    /// with a connection, the waiter observes a handle to that very
    /// connection — the one the lock holder received.
    pub proof fn lemma_shared_outcome(self, kv: KeyView, id: u64, conn: u64)
        requires
            self.wf(),
            !self.pending_at(kv, id),
            self.resolution(id) == Some(Some(conn)),
        ensures
            self.spec_status(kv, id) == WaiterStatus::Ready(PoolClient { conn }),
    {
    }

    /// The status `waiter_status` reports for waiter `id` of key `kv`.
    pub open spec fn spec_status(self, kv: KeyView, id: u64) -> WaiterStatus {
        if self.pending_at(kv, id) {
            WaiterStatus::Pending
        } else {
            match self.resolution(id) {
                Some(Some(c)) => WaiterStatus::Ready(PoolClient { conn: c }),
                Some(None) => WaiterStatus::Failed,
                None => WaiterStatus::Failed,
            }
        }
    }

    /// After removing the entry at `i` of `pre` and pushing an entry
    /// with the same key, the entry map is the map of `pre` with that
    /// key replaced, and well-formedness carries over whenever the
    /// pushed waiter list is either the old one extended by the next
    /// fresh id, the old one, or empty, with the other fields
    /// changed accordingly — the cases the operations produce.
    proof fn lemma_after_replace(self, pre: Pool, i: int, kv: KeyView)
        requires
            pre.wf(),
            0 <= i < pre.entries@.len(),
            pre.entries@[i].0@ == kv,
            self.entries@ =~= pre.entries@.remove(i).push(
                (pre.entries@[i].0, self.entries@.last().1),
            ),
            self.done@ == pre.done@,
            self.timeout == pre.timeout,
            self.waiters_of(self.entries@.len() - 1) =~= Seq::<u64>::empty()
                || self.waiters_of(self.entries@.len() - 1) =~= pre.waiters_of(i) || (
            pre.next_waiter < u64::MAX && self.waiters_of(self.entries@.len() - 1)
                =~= pre.waiters_of(i).push(pre.next_waiter) && self.next_waiter == pre.next_waiter
                + 1),
            self.next_waiter == pre.next_waiter || (pre.next_waiter < u64::MAX
                && self.next_waiter == pre.next_waiter + 1),
        ensures
            self.wf(),
            self.entries_map() == pre.entries_map().insert(kv, self.entries@.last().1@),
    {
        let s = pre.entries@;
        let s2 = self.entries@;
        let n = s.len();
        lemma_map_of_remove(s, i);
        assert(s2.drop_last() =~= s.remove(i));
        assert(map_of(s2) == map_of(s.remove(i)).insert(kv, s2.last().1@));
        assert(map_of(s).remove(kv).insert(kv, s2.last().1@) =~= map_of(s).insert(
            kv,
            s2.last().1@,
        ));
        assert(forall|j: int| 0 <= j < n && j != i ==> s[j].0@ != kv);
        assert forall|j: int| 0 <= j < s2.len() - 1 implies s2[j] == (if j < i {
            s[j]
        } else {
            s[j + 1]
        }) && self.waiters_of(j) == pre.waiters_of(if j < i { j } else { j + 1 }) by {}
        assert forall|a: int, b: int| 0 <= a < b < s2.len() implies s2[a].0@ != s2[b].0@ by {
            if b == s2.len() - 1 {
                assert(s2[b].0@ == kv);
            }
        }
        assert forall|j: int, a: int|
            (0 <= j < s2.len() && 0 <= a < self.waiters_of(j).len()) implies #[trigger] self.waiters_of(
            j,
        )[a] < self.next_waiter && done_find(self.done@, self.waiters_of(j)[a]) is None by {
            if j == s2.len() - 1 {
                if a < pre.waiters_of(i).len() {
                    assert(self.waiters_of(j)[a] == pre.waiters_of(i)[a]);
                } else {
                    assert(self.waiters_of(j)[a] == pre.next_waiter);
                    lemma_done_find_absent(pre.done@, pre.next_waiter);
                }
            }
        }
        assert forall|j: int, a: int, b: int|
            (0 <= j < s2.len() && 0 <= a < b < self.waiters_of(j).len()) implies #[trigger] self.waiters_of(
            j,
        )[a] != #[trigger] self.waiters_of(j)[b] by {
            if j == s2.len() - 1 {
                if b == pre.waiters_of(i).len() {
                    assert(self.waiters_of(j)[b] == pre.next_waiter);
                    assert(pre.waiters_of(i)[a] < pre.next_waiter);
                }
            }
        }
        assert forall|j1: int, j2: int, a: int, b: int|
            (0 <= j1 < s2.len() && 0 <= j2 < s2.len() && j1 != j2 && 0 <= a < self.waiters_of(
                j1,
            ).len() && 0 <= b < self.waiters_of(j2).len()) implies #[trigger] self.waiters_of(j1)[a]
            != #[trigger] self.waiters_of(j2)[b] by {
            if j1 == s2.len() - 1 {
                if a >= pre.waiters_of(i).len() {
                    assert(self.waiters_of(j1)[a] == pre.next_waiter);
                }
            }
            if j2 == s2.len() - 1 {
                if b >= pre.waiters_of(i).len() {
                    assert(self.waiters_of(j2)[b] == pre.next_waiter);
                }
            }
        }
    }
}

} // verus!
