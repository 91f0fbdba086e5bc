//! The seen cache: content ids with the time they arrived, for duplicate suppression.
use vstd::prelude::*;
use crate::wire::{bytes_eq, listed};

verus! {

/// An entry that arrived at `ts` still counts at `now`: it is younger than `window`.
pub open spec fn live(ts: u64, now: u64, window: u64) -> bool {
    (now as int - ts as int) < (window as int)
}

/// Two entries with the same id, arrival time and frame.
pub open spec fn same_entry(a: (Vec<u8>, u64, Vec<u8>), b: (Vec<u8>, u64, Vec<u8>)) -> bool {
    a.0@ == b.0@ && a.1 == b.1 && a.2@ == b.2@
}

/// Content ids with their arrival times and the frames that carried them; an id
/// counts as seen, and its frame stays available to peers that ask for it, for
/// `window` time units after it arrived.
pub struct SeenCache {
    entries: Vec<(Vec<u8>, u64, Vec<u8>)>,
    window: u64,
}

impl SeenCache {
    /// The expiry window.
    pub closed spec fn window_spec(&self) -> u64 {
        self.window
    }

    /// The number of entries held.
    pub closed spec fn len_spec(&self) -> nat {
        self.entries@.len()
    }

    /// Whether `id` counts as seen at time `now`.
    pub closed spec fn seen(&self, id: Seq<u8>, now: u64) -> bool {
        exists|i: int|
            0 <= i < self.entries@.len() && (#[trigger] self.entries@[i]).0@ == id && live(
                self.entries@[i].1,
                now,
                self.window,
            )
    }

    /// Whether `frame` is held for `id` at time `now`.
    pub closed spec fn cached(&self, id: Seq<u8>, frame: Seq<u8>, now: u64) -> bool {
        exists|i: int|
            0 <= i < self.entries@.len() && (#[trigger] self.entries@[i]).0@ == id
                && self.entries@[i].2@ == frame && live(self.entries@[i].1, now, self.window)
    }

    /// `self` is `before` with `id` recorded as arriving at `now`.
    pub open spec fn records(&self, before: &SeenCache, id: Seq<u8>, now: u64) -> bool {
        &&& self.window_spec() == before.window_spec()
        &&& forall|x: Seq<u8>, t: u64|
            #[trigger] self.seen(x, t) == (before.seen(x, t) || (x == id && live(
                now,
                t,
                before.window_spec(),
            )))
    }

    /// An empty cache with the given window.
    pub fn new(window: u64) -> (r: SeenCache)
        ensures
            r.window_spec() == window,
            r.len_spec() == 0,
            forall|x: Seq<u8>, t: u64| !#[trigger] r.seen(x, t),
    {
        SeenCache { entries: Vec::new(), window }
    }

    /// The number of entries held.
    pub fn len(&self) -> (r: usize)
        ensures
            r == self.len_spec(),
    {
        self.entries.len()
    }

    /// Whether `id` counts as seen at `now`.
    pub fn contains(&self, id: &Vec<u8>, now: u64) -> (r: bool)
        ensures
            r == self.seen(id@, now),
    {
        let mut i: usize = 0;
        while i < self.entries.len()
            invariant
                i <= self.entries@.len(),
                forall|j: int|
                    0 <= j < i ==> !((#[trigger] self.entries@[j]).0@ == id@ && live(
                        self.entries@[j].1,
                        now,
                        self.window,
                    )),
            decreases self.entries@.len() - i,
        {
            let ts = self.entries[i].1;
            if bytes_eq(&self.entries[i].0, id) && (now < ts || now - ts < self.window) {
                return true;
            }
            i = i + 1;
        }
        false
    }

    /// Records `id` as arriving at `now` with the `frame` that carried it, whether
    /// or not it was seen before.
    pub fn insert(&mut self, id: &Vec<u8>, frame: &Vec<u8>, now: u64)
        ensures
            final(self).records(old(self), id@, now),
            forall|t: u64| live(now, t, old(self).window_spec()) ==> #[trigger] final(self).cached(id@, frame@, t),
            forall|x: Seq<u8>, f: Seq<u8>, t: u64| #[trigger] old(self).cached(x, f, t) ==> final(self).cached(x, f, t),
            final(self).len_spec() == old(self).len_spec() + 1,
    {
        let ghost before = *self;
        let copy = frame.clone();
        assert(copy@ =~= frame@);
        self.entries.push((id.clone(), now, copy));
        proof {
            let n = before.entries@.len() as int;
            assert forall|t: u64| live(now, t, before.window) implies #[trigger] self.cached(id@, frame@, t) by {
                assert(self.entries@[n].0@ == id@);
            }
            assert forall|x: Seq<u8>, f: Seq<u8>, t: u64| #[trigger] before.cached(x, f, t) implies self.cached(x, f, t) by {
                let i = choose|i: int|
                    0 <= i < before.entries@.len() && (#[trigger] before.entries@[i]).0@ == x
                        && before.entries@[i].2@ == f && live(before.entries@[i].1, t, before.window);
                assert(self.entries@[i] == before.entries@[i]);
            }
            assert forall|x: Seq<u8>, t: u64| #[trigger]
                self.seen(x, t) == (before.seen(x, t) || (x == id@ && live(now, t, self.window))) by {
                if before.seen(x, t) {
                    let i = choose|i: int|
                        0 <= i < before.entries@.len() && (#[trigger] before.entries@[i]).0@ == x
                            && live(before.entries@[i].1, t, before.window);
                    assert(self.entries@[i] == before.entries@[i]);
                }
                if x == id@ && live(now, t, self.window) {
                    assert(self.entries@[n].0@ == x);
                }
                if self.seen(x, t) {
                    let i = choose|i: int|
                        0 <= i < self.entries@.len() && (#[trigger] self.entries@[i]).0@ == x
                            && live(self.entries@[i].1, t, self.window);
                    if i < n {
                        assert(before.entries@[i] == self.entries@[i]);
                    }
                }
            }
        }
    }

    /// The duplicate check: true when `id` is new at `now`, and then records it
    /// with the `frame` that carried it; a duplicate leaves the cache as it was.
    pub fn check_and_insert(&mut self, id: &Vec<u8>, frame: &Vec<u8>, now: u64) -> (fresh: bool)
        ensures
            fresh == !old(self).seen(id@, now),
            fresh ==> final(self).records(old(self), id@, now),
            fresh ==> forall|t: u64| live(now, t, old(self).window_spec()) ==> #[trigger] final(self).cached(id@, frame@, t),
            forall|x: Seq<u8>, f: Seq<u8>, t: u64| #[trigger] old(self).cached(x, f, t) ==> final(self).cached(x, f, t),
            fresh ==> final(self).len_spec() == old(self).len_spec() + 1,
            !fresh ==> *final(self) == *old(self),
    {
        if self.contains(id, now) {
            return false;
        }
        self.insert(id, frame, now);
        true
    }

    /// The frame held for `id` at `now`, if `id` counts as seen.
    pub fn frame_of(&self, id: &Vec<u8>, now: u64) -> (r: Option<Vec<u8>>)
        ensures
            match r {
                Some(f) => self.cached(id@, f@, now),
                None => !self.seen(id@, now),
            },
    {
        let mut i: usize = 0;
        while i < self.entries.len()
            invariant
                i <= self.entries@.len(),
                forall|j: int|
                    0 <= j < i ==> !((#[trigger] self.entries@[j]).0@ == id@ && live(
                        self.entries@[j].1,
                        now,
                        self.window,
                    )),
            decreases self.entries@.len() - i,
        {
            let ts = self.entries[i].1;
            if bytes_eq(&self.entries[i].0, id) && (now < ts || now - ts < self.window) {
                let f = self.entries[i].2.clone();
                assert(f@ =~= self.entries@[i as int].2@);
                return Some(f);
            }
            i = i + 1;
        }
        None
    }

    /// The ids that count as seen at `now`, for announcing to peers.
    pub fn recent(&self, now: u64) -> (r: Vec<Vec<u8>>)
        ensures
            forall|x: Seq<u8>| #[trigger] listed(r@, x) <==> self.seen(x, now),
    {
        let mut r: Vec<Vec<u8>> = Vec::new();
        let mut i: usize = 0;
        while i < self.entries.len()
            invariant
                i <= self.entries@.len(),
                forall|x: Seq<u8>| #[trigger] listed(r@, x) <==> exists|j: int|
                    0 <= j < i && (#[trigger] self.entries@[j]).0@ == x && live(self.entries@[j].1, now, self.window),
            decreases self.entries@.len() - i,
        {
            let ghost pre = r@;
            let ts = self.entries[i].1;
            if now < ts || now - ts < self.window {
                let id = self.entries[i].0.clone();
                assert(id@ =~= self.entries@[i as int].0@);
                r.push(id);
            }
            proof {
                assert forall|x: Seq<u8>| #[trigger] listed(r@, x) <==> exists|j: int|
                    0 <= j < i + 1 && (#[trigger] self.entries@[j]).0@ == x && live(self.entries@[j].1, now, self.window) by {
                    if listed(r@, x) {
                        let k = choose|k: int| 0 <= k < r@.len() && (#[trigger] r@[k])@ == x;
                        if k < pre.len() {
                            assert(pre[k] == r@[k]);
                            assert(listed(pre, x));
                        } else {
                            assert(self.entries@[i as int].0@ == x);
                        }
                    }
                    if exists|j: int| 0 <= j < i + 1 && (#[trigger] self.entries@[j]).0@ == x && live(self.entries@[j].1, now, self.window) {
                        let j = choose|j: int| 0 <= j < i + 1 && (#[trigger] self.entries@[j]).0@ == x && live(self.entries@[j].1, now, self.window);
                        if j < i {
                            assert(listed(pre, x));
                            let k = choose|k: int| 0 <= k < pre.len() && (#[trigger] pre[k])@ == x;
                            assert(r@[k] == pre[k]);
                        } else {
                            assert(r@[pre.len() as int]@ == x);
                        }
                    }
                }
            }
            i = i + 1;
        }
        r
    }

    /// Drops every entry that no longer counts at `now`; nothing changes for any
    /// time from `now` on.
    pub fn sweep(&mut self, now: u64)
        ensures
            final(self).window_spec() == old(self).window_spec(),
            forall|x: Seq<u8>, t: u64|
                t >= now ==> #[trigger] final(self).seen(x, t) == old(self).seen(x, t),
            forall|x: Seq<u8>, f: Seq<u8>, t: u64|
                t >= now ==> #[trigger] final(self).cached(x, f, t) == old(self).cached(x, f, t),
            final(self).len_spec() <= old(self).len_spec(),
    {
        let ghost before = *self;
        let mut kept: Vec<(Vec<u8>, u64, Vec<u8>)> = Vec::new();
        let mut i: usize = 0;
        while i < self.entries.len()
            invariant
                *self == before,
                i <= self.entries@.len(),
                kept@.len() <= i,
                forall|k: int|
                    0 <= k < kept@.len() ==> exists|j: int|
                        0 <= j < i && same_entry(#[trigger] kept@[k], #[trigger] self.entries@[j]),
                forall|k: int|
                    0 <= k < kept@.len() ==> live((#[trigger] kept@[k]).1, now, self.window),
                forall|j: int|
                    0 <= j < i && live((#[trigger] self.entries@[j]).1, now, self.window)
                        ==> exists|k: int| 0 <= k < kept@.len() && same_entry(kept@[k], self.entries@[j]),
            decreases self.entries@.len() - i,
        {
            let ts = self.entries[i].1;
            if now < ts || now - ts < self.window {
                let id = self.entries[i].0.clone();
                assert(id@ =~= self.entries@[i as int].0@);
                let f = self.entries[i].2.clone();
                assert(f@ =~= self.entries@[i as int].2@);
                let e = (id, ts, f);
                let ghost kb = kept@;
                kept.push(e);
                proof {
                    assert(same_entry(kept@[kb.len() as int], self.entries@[i as int]));
                    assert forall|k: int| 0 <= k < kept@.len() implies exists|j: int|
                        0 <= j < i + 1 && same_entry(#[trigger] kept@[k], #[trigger] self.entries@[j]) by {
                        if k < kb.len() {
                            assert(kept@[k] == kb[k]);
                        } else {
                            assert(same_entry(kept@[k], self.entries@[i as int]));
                        }
                    }
                    assert forall|j: int|
                        0 <= j < i + 1 && live((#[trigger] self.entries@[j]).1, now, self.window)
                        implies exists|k: int| 0 <= k < kept@.len() && same_entry(kept@[k], self.entries@[j]) by {
                        if j < i {
                            let k = choose|k: int| 0 <= k < kb.len() && same_entry(kb[k], self.entries@[j]);
                            assert(kept@[k] == kb[k]);
                        } else {
                            assert(same_entry(kept@[kb.len() as int], self.entries@[j]));
                        }
                    }
                }
            }
            i = i + 1;
        }
        self.entries = kept;
        proof {
            assert forall|x: Seq<u8>, t: u64| t >= now implies #[trigger] self.seen(x, t)
                == before.seen(x, t) by {
                if self.seen(x, t) {
                    let k = choose|k: int|
                        0 <= k < self.entries@.len() && (#[trigger] self.entries@[k]).0@ == x
                            && live(self.entries@[k].1, t, self.window);
                    let j = choose|j: int|
                        0 <= j < before.entries@.len() && same_entry(#[trigger] self.entries@[k],
                            #[trigger] before.entries@[j]);
                    assert(before.entries@[j].0@ == x);
                }
                if before.seen(x, t) {
                    let j = choose|j: int|
                        0 <= j < before.entries@.len() && (#[trigger] before.entries@[j]).0@ == x
                            && live(before.entries@[j].1, t, before.window);
                    assert(live(before.entries@[j].1, now, before.window));
                    let k = choose|k: int|
                        0 <= k < self.entries@.len() && same_entry(self.entries@[k], before.entries@[j]);
                    assert(self.entries@[k].0@ == x);
                }
            }
            assert forall|x: Seq<u8>, f: Seq<u8>, t: u64| t >= now implies #[trigger] self.cached(x, f, t)
                == before.cached(x, f, t) by {
                if self.cached(x, f, t) {
                    let k = choose|k: int|
                        0 <= k < self.entries@.len() && (#[trigger] self.entries@[k]).0@ == x
                            && self.entries@[k].2@ == f && live(self.entries@[k].1, t, self.window);
                    let j = choose|j: int|
                        0 <= j < before.entries@.len() && same_entry(#[trigger] self.entries@[k],
                            #[trigger] before.entries@[j]);
                    assert(before.entries@[j].0@ == x);
                }
                if before.cached(x, f, t) {
                    let j = choose|j: int|
                        0 <= j < before.entries@.len() && (#[trigger] before.entries@[j]).0@ == x
                            && before.entries@[j].2@ == f && live(before.entries@[j].1, t, before.window);
                    assert(live(before.entries@[j].1, now, before.window));
                    let k = choose|k: int|
                        0 <= k < self.entries@.len() && same_entry(self.entries@[k], before.entries@[j]);
                    assert(self.entries@[k].0@ == x);
                }
            }
        }
    }
}

/// Once the window has passed since an id was recorded, and nothing else recorded
/// it, the id counts as new again: an expired entry never suppresses a duplicate.
pub proof fn lemma_expired_entry_is_new(
    before: &SeenCache,
    after: &SeenCache,
    id: Seq<u8>,
    now: u64,
    t: u64,
)
    requires
        after.records(before, id, now),
        !before.seen(id, t),
        t as int >= now as int + before.window_spec() as int,
    ensures
        !after.seen(id, t),
{
    assert(after.seen(id, t) == (before.seen(id, t) || (id == id && live(now, t, before.window_spec()))));
}

/// Within the window after an id was recorded, it counts as seen.
pub proof fn lemma_recorded_entry_is_seen(
    before: &SeenCache,
    after: &SeenCache,
    id: Seq<u8>,
    now: u64,
    t: u64,
)
    requires
        after.records(before, id, now),
        live(now, t, before.window_spec()),
    ensures
        after.seen(id, t),
{
    assert(after.seen(id, t) == (before.seen(id, t) || (id == id && live(now, t, before.window_spec()))));
}

} // verus!
