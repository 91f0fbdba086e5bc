//! The peer directory: live peers, each with a local handle and a liveness deadline.
use vstd::prelude::*;
use crate::wire::{bytes_eq, listed};

verus! {

/// A live peer.
pub struct PeerEntry {
    /// The local handle that meshes and frames refer to the peer by.
    pub handle: u64,
    /// The peer id.
    pub id: Vec<u8>,
    /// Where discovery found it.
    pub address: String,
    /// Dropped by a sweep after this time unless discovered again.
    pub deadline: u64,
}

/// The live peers. A peer that expires and is discovered again gets a new handle,
/// so nothing that still holds the old one can mistake it for the new admission.
pub struct PeerDirectory {
    entries: Vec<PeerEntry>,
    next_handle: u64,
    ttl: u64,
}

impl PeerDirectory {
    /// Handles and ids are unique, and every handle is below the next one to give.
    pub closed spec fn wf(&self) -> bool {
        &&& forall|i: int, j: int|
            0 <= i < j < self.entries@.len() ==> (#[trigger] self.entries@[i]).handle
                != (#[trigger] self.entries@[j]).handle && self.entries@[i].id@
                != self.entries@[j].id@
        &&& forall|i: int|
            0 <= i < self.entries@.len() ==> (#[trigger] self.entries@[i]).handle
                < self.next_handle
    }

    /// The handle the next newly discovered peer gets.
    pub closed spec fn next_handle_spec(&self) -> u64 {
        self.next_handle
    }

    /// How long a discovery keeps a peer alive.
    pub closed spec fn ttl_spec(&self) -> u64 {
        self.ttl
    }

    /// Whether the peer `id` is live under handle `h`.
    pub closed spec fn has(&self, h: u64, id: Seq<u8>) -> bool {
        exists|i: int|
            0 <= i < self.entries@.len() && (#[trigger] self.entries@[i]).handle == h
                && self.entries@[i].id@ == id
    }

    /// Whether the peer `id` is live under handle `h` with deadline `d`.
    pub closed spec fn has_until(&self, h: u64, id: Seq<u8>, d: u64) -> bool {
        exists|i: int|
            0 <= i < self.entries@.len() && (#[trigger] self.entries@[i]).handle == h
                && self.entries@[i].id@ == id && self.entries@[i].deadline == d
    }

    /// Whether some live peer has handle `h`.
    pub open spec fn has_handle(&self, h: u64) -> bool {
        exists|id: Seq<u8>| self.has(h, id)
    }

    /// Every live handle is below the next one to give, so a handle that left
    /// is never given again.
    pub proof fn lemma_handle_below_next(&self, h: u64)
        requires
            self.wf(),
            self.has_handle(h),
        ensures
            h < self.next_handle_spec(),
    {
        let id = choose|id: Seq<u8>| self.has(h, id);
        let j = choose|j: int|
            0 <= j < self.entries@.len() && (#[trigger] self.entries@[j]).handle == h
                && self.entries@[j].id@ == id;
    }

    /// An empty directory whose discoveries keep a peer alive for `ttl`.
    pub fn new(ttl: u64) -> (r: PeerDirectory)
        ensures
            r.wf(),
            r.ttl_spec() == ttl,
            r.next_handle_spec() == 0,
            forall|h: u64, id: Seq<u8>| !#[trigger] r.has(h, id),
    {
        PeerDirectory { entries: Vec::new(), next_handle: 0, ttl }
    }

    /// The handle the next newly discovered peer gets.
    pub fn next_handle(&self) -> (r: u64)
        ensures
            r == self.next_handle_spec(),
    {
        self.next_handle
    }

    fn find(&self, id: &Vec<u8>) -> (r: Option<usize>)
        ensures
            match r {
                Some(i) => i < self.entries@.len() && self.entries@[i as int].id@ == id@,
                None => forall|i: int|
                    0 <= i < self.entries@.len() ==> (#[trigger] self.entries@[i]).id@ != id@,
            },
    {
        let mut i: usize = 0;
        while i < self.entries.len()
            invariant
                i <= self.entries@.len(),
                forall|j: int| 0 <= j < i ==> (#[trigger] self.entries@[j]).id@ != id@,
            decreases self.entries@.len() - i,
        {
            if bytes_eq(&self.entries[i].id, id) {
                return Some(i);
            }
            i = i + 1;
        }
        None
    }

    /// The handle of the live peer `id`, if it is live.
    pub fn handle_of(&self, id: &Vec<u8>) -> (r: Option<u64>)
        requires
            self.wf(),
        ensures
            match r {
                Some(h) => self.has(h, id@),
                None => forall|h: u64| !#[trigger] self.has(h, id@),
            },
    {
        match self.find(id) {
            Some(i) => Some(self.entries[i].handle),
            None => None,
        }
    }

    /// The id of the live peer with handle `h`, if there is one.
    pub fn peer_id_of(&self, h: u64) -> (r: Option<Vec<u8>>)
        requires
            self.wf(),
        ensures
            match r {
                Some(id) => self.has(h, id@),
                None => !self.has_handle(h),
            },
    {
        let mut i: usize = 0;
        while i < self.entries.len()
            invariant
                i <= self.entries@.len(),
                forall|j: int| 0 <= j < i ==> (#[trigger] self.entries@[j]).handle != h,
            decreases self.entries@.len() - i,
        {
            if self.entries[i].handle == h {
                let id = self.entries[i].id.clone();
                assert(id@ =~= self.entries@[i as int].id@);
                return Some(id);
            }
            i = i + 1;
        }
        None
    }

    /// Whether a peer with id `id` has a deadline before `now`.
    pub closed spec fn stale_id(&self, id: Seq<u8>, now: u64) -> bool {
        exists|j: int|
            0 <= j < self.entries@.len() && (#[trigger] self.entries@[j]).id@ == id
                && self.entries@[j].deadline < now
    }

    /// A live peer is stale exactly when its deadline is before `now`.
    pub proof fn lemma_stale(&self, h: u64, id: Seq<u8>, d: u64, now: u64)
        requires
            self.wf(),
            self.has_until(h, id, d),
        ensures
            self.stale_id(id, now) <==> d < now,
            self.has(h, id),
    {
        let j = choose|j: int|
            0 <= j < self.entries@.len() && (#[trigger] self.entries@[j]).handle == h
                && self.entries@[j].id@ == id && self.entries@[j].deadline == d;
        if self.stale_id(id, now) {
            let k = choose|k: int|
                0 <= k < self.entries@.len() && (#[trigger] self.entries@[k]).id@ == id
                    && self.entries@[k].deadline < now;
            if k != j {
                if k < j {
                    assert(self.entries@[k].id@ != self.entries@[j].id@);
                } else {
                    assert(self.entries@[j].id@ != self.entries@[k].id@);
                }
            }
        }
        assert(self.entries@[j].handle == h);
    }

    /// The ids of the peers whose deadline is before `now`.
    pub fn stale(&self, now: u64) -> (r: Vec<Vec<u8>>)
        ensures
            forall|id: Seq<u8>| #[trigger] listed(r@, id) <==> self.stale_id(id, now),
    {
        let mut r: Vec<Vec<u8>> = Vec::new();
        let mut i: usize = 0;
        while i < self.entries.len()
            invariant
                i <= self.entries@.len(),
                forall|id: Seq<u8>| #[trigger] listed(r@, id) <==> exists|j: int|
                    0 <= j < i && (#[trigger] self.entries@[j]).id@ == id && self.entries@[j].deadline < now,
            decreases self.entries@.len() - i,
        {
            let ghost pre = r@;
            if self.entries[i].deadline < now {
                let id = self.entries[i].id.clone();
                assert(id@ =~= self.entries@[i as int].id@);
                r.push(id);
            }
            proof {
                assert forall|id: Seq<u8>| #[trigger] listed(r@, id) <==> exists|j: int|
                    0 <= j < i + 1 && (#[trigger] self.entries@[j]).id@ == id && self.entries@[j].deadline < now by {
                    if listed(r@, id) {
                        let k = choose|k: int| 0 <= k < r@.len() && (#[trigger] r@[k])@ == id;
                        if k < pre.len() {
                            assert(pre[k] == r@[k]);
                            assert(listed(pre, id));
                        } else {
                            assert(self.entries@[i as int].id@ == id);
                        }
                    }
                    if exists|j: int| 0 <= j < i + 1 && (#[trigger] self.entries@[j]).id@ == id && self.entries@[j].deadline < now {
                        let j = choose|j: int| 0 <= j < i + 1 && (#[trigger] self.entries@[j]).id@ == id && self.entries@[j].deadline < now;
                        if j < i {
                            assert(listed(pre, id));
                            let k = choose|k: int| 0 <= k < pre.len() && (#[trigger] pre[k])@ == id;
                            assert(r@[k] == pre[k]);
                        } else {
                            assert(r@[pre.len() as int]@ == id);
                        }
                    }
                }
            }
            i = i + 1;
        }
        r
    }

    /// The handles of all live peers.
    pub fn peers(&self) -> (r: Vec<u64>)
        requires
            self.wf(),
        ensures
            r@.no_duplicates(),
            forall|h: u64| r@.contains(h) <==> self.has_handle(h),
    {
        let mut r: Vec<u64> = Vec::new();
        let mut i: usize = 0;
        while i < self.entries.len()
            invariant
                i <= self.entries@.len(),
                r@.len() == i,
                forall|j: int| 0 <= j < i ==> r@[j] == (#[trigger] self.entries@[j]).handle,
            decreases self.entries@.len() - i,
        {
            r.push(self.entries[i].handle);
            i = i + 1;
        }
        proof {
            assert forall|a: int, b: int| 0 <= a < r@.len() && 0 <= b < r@.len() && a != b
                implies r@[a] != r@[b] by {
                if a < b {
                    assert(self.entries@[a].handle != self.entries@[b].handle);
                } else {
                    assert(self.entries@[b].handle != self.entries@[a].handle);
                }
            }
            assert forall|h: u64| r@.contains(h) <==> self.has_handle(h) by {
                if r@.contains(h) {
                    let j = choose|j: int| 0 <= j < r@.len() && r@[j] == h;
                    assert(self.has(h, self.entries@[j].id@));
                }
                if self.has_handle(h) {
                    let id = choose|id: Seq<u8>| self.has(h, id);
                    let j = choose|j: int|
                        0 <= j < self.entries@.len() && (#[trigger] self.entries@[j]).handle == h
                            && self.entries@[j].id@ == id;
                    assert(r@[j] == h);
                }
            }
        }
        r
    }

    /// Adds the peer `id`, or refreshes its deadline to `now + ttl` (saturating);
    /// returns its handle, a new one for a peer that was not live.
    pub fn on_discovered(&mut self, id: &Vec<u8>, address: String, now: u64) -> (r: u64)
        requires
            old(self).wf(),
            old(self).next_handle_spec() < u64::MAX,
        ensures
            final(self).wf(),
            final(self).ttl_spec() == old(self).ttl_spec(),
            final(self).has(r, id@),
            (exists|h: u64| old(self).has(h, id@)) ==> old(self).has(r, id@)
                && final(self).next_handle_spec() == old(self).next_handle_spec(),
            !(exists|h: u64| old(self).has(h, id@)) ==> r == old(self).next_handle_spec()
                && final(self).next_handle_spec() == r + 1,
            forall|h: u64, x: Seq<u8>|
                #[trigger] final(self).has(h, x) <==> (old(self).has(h, x) || (h == r && x
                    == id@)),
    {
        let deadline = now.saturating_add(self.ttl);
        let ghost before = *self;
        match self.find(id) {
            Some(i) => {
                let h = self.entries[i].handle;
                let ghost e = self.entries@[i as int];
                let entry = PeerEntry {
                    handle: h,
                    id: self.entries[i].id.clone(),
                    address,
                    deadline,
                };
                assert(entry.id@ =~= e.id@);
                self.entries.set(i, entry);
                proof {
                    assert(before.has(h, id@));
                    assert forall|h2: u64, x: Seq<u8>|
                        #[trigger] self.has(h2, x) <==> (before.has(h2, x) || (h2 == h && x
                            == id@)) by {
                        if self.has(h2, x) {
                            let j = choose|j: int|
                                0 <= j < self.entries@.len() && (#[trigger] self.entries@[j]).handle
                                    == h2 && self.entries@[j].id@ == x;
                            if j != i {
                                assert(before.entries@[j] == self.entries@[j]);
                            }
                        }
                        if before.has(h2, x) {
                            let j = choose|j: int|
                                0 <= j < before.entries@.len() && (
                                #[trigger] before.entries@[j]).handle == h2
                                    && before.entries@[j].id@ == x;
                            assert(self.entries@[j].handle == h2 && self.entries@[j].id@ == x);
                        }
                        if h2 == h && x == id@ {
                            assert(self.entries@[i as int].handle == h2);
                        }
                    }
                    assert forall|a: int, b: int|
                        0 <= a < b < self.entries@.len() implies (#[trigger] self.entries@[a]).handle
                            != (#[trigger] self.entries@[b]).handle && self.entries@[a].id@
                            != self.entries@[b].id@ by {
                        assert(before.entries@[a].handle != before.entries@[b].handle);
                    }
                    assert forall|a: int| 0 <= a < self.entries@.len() implies (
                    #[trigger] self.entries@[a]).handle < self.next_handle by {
                        assert(before.entries@[a].handle < before.next_handle);
                    }
                }
                h
            },
            None => {
                let h = self.next_handle;
                let entry = PeerEntry { handle: h, id: id.clone(), address, deadline };
                assert(entry.id@ =~= id@);
                self.entries.push(entry);
                self.next_handle = h + 1;
                proof {
                    let n = before.entries@.len() as int;
                    assert forall|h2: u64| !before.has(h2, id@) by {
                        if before.has(h2, id@) {
                            let j = choose|j: int|
                                0 <= j < before.entries@.len() && (
                                #[trigger] before.entries@[j]).handle == h2
                                    && before.entries@[j].id@ == id@;
                        }
                    }
                    assert forall|h2: u64, x: Seq<u8>|
                        #[trigger] self.has(h2, x) <==> (before.has(h2, x) || (h2 == h && x
                            == id@)) by {
                        if self.has(h2, x) {
                            let j = choose|j: int|
                                0 <= j < self.entries@.len() && (#[trigger] self.entries@[j]).handle
                                    == h2 && self.entries@[j].id@ == x;
                            if j < n {
                                assert(before.entries@[j] == self.entries@[j]);
                            }
                        }
                        if before.has(h2, x) {
                            let j = choose|j: int|
                                0 <= j < before.entries@.len() && (
                                #[trigger] before.entries@[j]).handle == h2
                                    && before.entries@[j].id@ == x;
                            assert(self.entries@[j] == before.entries@[j]);
                        }
                        if h2 == h && x == id@ {
                            assert(self.entries@[n].handle == h2);
                        }
                    }
                    assert forall|a: int, b: int|
                        0 <= a < b < self.entries@.len() implies (#[trigger] self.entries@[a]).handle
                            != (#[trigger] self.entries@[b]).handle && self.entries@[a].id@
                            != self.entries@[b].id@ by {
                        if b < n {
                            assert(before.entries@[a].handle != before.entries@[b].handle);
                        } else {
                            assert(before.entries@[a].handle < before.next_handle);
                            assert(self.entries@[a] == before.entries@[a]);
                        }
                    }
                    assert forall|a: int| 0 <= a < self.entries@.len() implies (
                    #[trigger] self.entries@[a]).handle < self.next_handle by {
                        if a < n {
                            assert(before.entries@[a].handle < before.next_handle);
                        }
                    }
                }
                h
            },
        }
    }

    /// Removes the peer `id`; returns the handle it had, if it was live.
    pub fn on_expired(&mut self, id: &Vec<u8>) -> (r: Option<u64>)
        requires
            old(self).wf(),
        ensures
            final(self).wf(),
            final(self).ttl_spec() == old(self).ttl_spec(),
            final(self).next_handle_spec() == old(self).next_handle_spec(),
            match r {
                Some(h) => old(self).has(h, id@),
                None => forall|h: u64| !#[trigger] old(self).has(h, id@),
            },
            forall|h: u64| #[trigger] old(self).has(h, id@) ==> r == Some(h),
            forall|h: u64, x: Seq<u8>|
                #[trigger] final(self).has(h, x) <==> (old(self).has(h, x) && x != id@),
            forall|h: u64|
                #[trigger] final(self).has_handle(h) <==> (old(self).has_handle(h) && r != Some(
                    h,
                )),
    {
        let ghost before = *self;
        match self.find(id) {
            None => {
                proof {
                    assert forall|h: u64, x: Seq<u8>|
                        #[trigger] self.has(h, x) <==> (before.has(h, x) && x != id@) by {
                        if before.has(h, x) && x == id@ {
                            let j = choose|j: int|
                                0 <= j < before.entries@.len() && (
                                #[trigger] before.entries@[j]).handle == h
                                    && before.entries@[j].id@ == x;
                        }
                    }
                }
                None
            },
            Some(i) => {
                let h = self.entries[i].handle;
                self.entries.remove(i);
                proof {
                    let n = before.entries@.len() as int;
                    assert forall|h2: u64| #[trigger] before.has(h2, id@) implies Some(h) == Some(h2) by {
                        let j = choose|j: int|
                            0 <= j < before.entries@.len() && (#[trigger] before.entries@[j]).handle
                                == h2 && before.entries@[j].id@ == id@;
                        if j < i {
                            assert(before.entries@[j].id@ != before.entries@[i as int].id@);
                        } else if j > i {
                            assert(before.entries@[i as int].id@ != before.entries@[j].id@);
                        }
                    }
                    assert(before.has(h, id@));
                    assert forall|j: int| 0 <= j < self.entries@.len() implies #[trigger] self.entries@[j]
                        == before.entries@[if j < i { j } else { j + 1 }] by {}
                    assert forall|h2: u64, x: Seq<u8>|
                        #[trigger] self.has(h2, x) <==> (before.has(h2, x) && x != id@) by {
                        if self.has(h2, x) {
                            let j = choose|j: int|
                                0 <= j < self.entries@.len() && (#[trigger] self.entries@[j]).handle
                                    == h2 && self.entries@[j].id@ == x;
                            let k = if j < i { j } else { j + 1 };
                            assert(before.entries@[k] == self.entries@[j]);
                            assert(k != i);
                        }
                        if before.has(h2, x) && x != id@ {
                            let k = choose|k: int|
                                0 <= k < before.entries@.len() && (
                                #[trigger] before.entries@[k]).handle == h2
                                    && before.entries@[k].id@ == x;
                            assert(k != i);
                            let j = if k < i { k } else { k - 1 };
                            assert(self.entries@[j] == before.entries@[k]);
                        }
                    }
                    assert forall|h2: u64| #[trigger] self.has_handle(h2) <==> (before.has_handle(h2)
                        && Some(h) != Some(h2)) by {
                        if self.has_handle(h2) {
                            let x = choose|x: Seq<u8>| self.has(h2, x);
                            let j = choose|j: int|
                                0 <= j < self.entries@.len() && (#[trigger] self.entries@[j]).handle
                                    == h2 && self.entries@[j].id@ == x;
                            let k = if j < i { j } else { j + 1 };
                            assert(before.entries@[k] == self.entries@[j]);
                            assert(before.has(h2, x));
                        }
                        if before.has_handle(h2) && h2 != h {
                            let x = choose|x: Seq<u8>| before.has(h2, x);
                            let k = choose|k: int|
                                0 <= k < before.entries@.len() && (
                                #[trigger] before.entries@[k]).handle == h2
                                    && before.entries@[k].id@ == x;
                            assert(k != i);
                            let j = if k < i { k } else { k - 1 };
                            assert(self.entries@[j] == before.entries@[k]);
                            assert(self.has(h2, x));
                        }
                    }
                    assert forall|a: int, b: int|
                        0 <= a < b < self.entries@.len() implies (#[trigger] self.entries@[a]).handle
                            != (#[trigger] self.entries@[b]).handle && self.entries@[a].id@
                            != self.entries@[b].id@ by {
                        let ka = if a < i { a } else { a + 1 };
                        let kb = if b < i { b } else { b + 1 };
                        assert(before.entries@[ka] == self.entries@[a]);
                        assert(before.entries@[kb] == self.entries@[b]);
                    }
                    assert forall|a: int| 0 <= a < self.entries@.len() implies (
                    #[trigger] self.entries@[a]).handle < self.next_handle by {
                        let ka = if a < i { a } else { a + 1 };
                        assert(before.entries@[ka] == self.entries@[a]);
                    }
                }
                Some(h)
            },
        }
    }
}

} // verus!
