//! Per-topic meshes: the peers that get full messages, inside the peers aware of
//! the topic, rebalanced on each heartbeat.
use vstd::prelude::*;
use vstd::set_lib::lemma_len_subset;
use vstd::seq_lib::seq_to_set_is_finite;

verus! {

broadcast use vstd::seq_lib::lemma_seq_contains_after_push;

/// Every element of `a` is in `b`.
pub open spec fn within(a: Seq<u64>, b: Seq<u64>) -> bool {
    forall|x: u64| a.contains(x) ==> b.contains(x)
}

/// A sequence without duplicates holds no more elements than one that holds all of them.
pub proof fn lemma_within_len(a: Seq<u64>, b: Seq<u64>)
    requires
        a.no_duplicates(),
        b.no_duplicates(),
        within(a, b),
    ensures
        a.len() <= b.len(),
{
    a.unique_seq_to_set();
    b.unique_seq_to_set();
    seq_to_set_is_finite(b);
    assert(a.to_set().subset_of(b.to_set()));
    lemma_len_subset(a.to_set(), b.to_set());
}

/// Whether `v` holds `h`.
pub fn holds(v: &Vec<u64>, h: u64) -> (r: bool)
    ensures
        r == v@.contains(h),
{
    let mut i: usize = 0;
    while i < v.len()
        invariant
            i <= v@.len(),
            forall|j: int| 0 <= j < i ==> v@[j] != h,
        decreases v@.len() - i,
    {
        if v[i] == h {
            return true;
        }
        i = i + 1;
    }
    false
}

/// The elements of `a` that are not in `b`, in their order.
pub fn difference(a: &Vec<u64>, b: &Vec<u64>) -> (r: Vec<u64>)
    ensures
        forall|x: u64| r@.contains(x) <==> (a@.contains(x) && !b@.contains(x)),
        a@.no_duplicates() ==> r@.no_duplicates(),
        r@.len() <= a@.len(),
{
    let mut r: Vec<u64> = Vec::new();
    let mut i: usize = 0;
    while i < a.len()
        invariant
            i <= a@.len(),
            r@.len() <= i,
            forall|x: u64| r@.contains(x) <==> (a@.subrange(0, i as int).contains(x) && !b@.contains(x)),
            a@.no_duplicates() ==> r@.no_duplicates(),
        decreases a@.len() - i,
    {
        let x = a[i];
        let ghost pre = r@;
        assert(a@.subrange(0, i + 1) =~= a@.subrange(0, i as int).push(x));
        if !holds(b, x) {
            r.push(x);
            proof {
                assert(r@ =~= pre.push(x));
                if a@.no_duplicates() {
                    assert(!a@.subrange(0, i as int).contains(x));
                    assert(!pre.contains(x));
                    assert forall|p: int, q: int| 0 <= p < r@.len() && 0 <= q < r@.len() && p != q
                        implies r@[p] != r@[q] by {
                        if q == pre.len() {
                            assert(pre.contains(r@[p]) || p == q);
                        } else if p == pre.len() {
                            assert(pre.contains(r@[q]));
                        }
                    }
                }
            }
        }
        i = i + 1;
    }
    assert(a@.subrange(0, a@.len() as int) =~= a@);
    r
}

proof fn lemma_swap(s: Seq<u64>, a: int, b: int)
    requires
        0 <= a < s.len(),
        0 <= b < s.len(),
    ensures
        forall|x: u64| #[trigger] s.update(a, s[b]).update(b, s[a]).contains(x) <==> s.contains(x),
        s.no_duplicates() ==> s.update(a, s[b]).update(b, s[a]).no_duplicates(),
{
    let t = s.update(a, s[b]).update(b, s[a]);
    assert forall|k: int| 0 <= k < s.len() implies #[trigger] t[k] == s[if k == a { b } else if k == b { a } else { k }] by {}
    assert forall|x: u64| #[trigger] t.contains(x) <==> s.contains(x) by {
        if t.contains(x) {
            let k = choose|k: int| 0 <= k < t.len() && t[k] == x;
            let m = if k == a { b } else if k == b { a } else { k };
            assert(s[m] == x);
        }
        if s.contains(x) {
            let k = choose|k: int| 0 <= k < s.len() && s[k] == x;
            let m = if k == a { b } else if k == b { a } else { k };
            assert(t[m] == x);
        }
    }
}

/// Shuffles `v` in place, Fisher-Yates with an xorshift stream drawn from `seed`.
pub fn shuffle(v: &mut Vec<u64>, seed: u64)
    ensures
        final(v)@.len() == old(v)@.len(),
        forall|x: u64| final(v)@.contains(x) <==> old(v)@.contains(x),
        old(v)@.no_duplicates() ==> final(v)@.no_duplicates(),
{
    let mut state: u64 = seed | 1;
    let mut i: usize = v.len();
    while i > 1
        invariant
            v@.len() == old(v)@.len(),
            i <= v@.len(),
            forall|x: u64| v@.contains(x) <==> old(v)@.contains(x),
            old(v)@.no_duplicates() ==> v@.no_duplicates(),
        decreases i,
    {
        state = state ^ (state << 13u64);
        state = state ^ (state >> 7u64);
        state = state ^ (state << 17u64);
        let j = (state % (i as u64)) as usize;
        let k = i - 1;
        let ghost s = v@;
        let a = v[k];
        let b = v[j];
        v.set(k, b);
        v.set(j, a);
        proof {
            lemma_swap(s, k as int, j as int);
            assert(v@ =~= s.update(k as int, s[j as int]).update(j as int, s[k as int]));
        }
        i = k;
    }
}

/// One topic's mesh and the peers aware of the topic.
pub struct TopicMesh {
    topic: Vec<u8>,
    mesh: Vec<u64>,
    aware: Vec<u64>,
}

impl TopicMesh {
    /// No peer twice, and the mesh within the aware peers.
    pub closed spec fn wf(&self) -> bool {
        &&& self.mesh@.no_duplicates()
        &&& self.aware@.no_duplicates()
        &&& within(self.mesh@, self.aware@)
    }

    pub closed spec fn topic_spec(&self) -> Seq<u8> {
        self.topic@
    }

    /// The peers that get full messages.
    pub closed spec fn mesh_spec(&self) -> Seq<u64> {
        self.mesh@
    }

    /// The peers aware of the topic, the mesh among them.
    pub closed spec fn aware_spec(&self) -> Seq<u64> {
        self.aware@
    }

    /// `self` is `before` after one heartbeat with marks `d_lo` and `d_hi`.
    pub open spec fn rebalanced(&self, before: &TopicMesh, d_lo: usize, d_hi: usize) -> bool {
        &&& self.topic_spec() == before.topic_spec()
        &&& self.aware_spec() == before.aware_spec()
        &&& before.mesh_spec().len() < d_lo ==> {
            &&& self.mesh_spec().len() == if before.aware_spec().len() < d_lo {
                before.aware_spec().len()
            } else {
                d_lo as nat
            }
            &&& within(before.mesh_spec(), self.mesh_spec())
        }
        &&& before.mesh_spec().len() > d_hi ==> self.mesh_spec().len() == d_hi && within(
            self.mesh_spec(),
            before.mesh_spec(),
        )
        &&& d_lo <= before.mesh_spec().len() <= d_hi ==> self.mesh_spec() == before.mesh_spec()
    }

    /// The mesh is within the aware peers, and neither holds a peer twice.
    pub proof fn lemma_wf(&self)
        requires
            self.wf(),
        ensures
            within(self.mesh_spec(), self.aware_spec()),
            self.mesh_spec().no_duplicates(),
            self.aware_spec().no_duplicates(),
    {
    }

    /// A topic with the given aware peers and an empty mesh.
    pub fn new(topic: Vec<u8>, aware: Vec<u64>) -> (r: TopicMesh)
        requires
            aware@.no_duplicates(),
        ensures
            r.wf(),
            r.topic_spec() == topic@,
            r.mesh_spec().len() == 0,
            r.aware_spec() == aware@,
    {
        TopicMesh { topic, mesh: Vec::new(), aware }
    }

    pub fn topic(&self) -> (r: &Vec<u8>)
        ensures
            r@ == self.topic_spec(),
    {
        &self.topic
    }

    /// The mesh peers.
    pub fn mesh(&self) -> (r: &Vec<u64>)
        ensures
            r@ == self.mesh_spec(),
    {
        &self.mesh
    }

    /// The aware peers.
    pub fn aware(&self) -> (r: &Vec<u64>)
        ensures
            r@ == self.aware_spec(),
    {
        &self.aware
    }

    /// Makes `h` aware of the topic; the mesh is left alone.
    pub fn add_aware(&mut self, h: u64)
        requires
            old(self).wf(),
        ensures
            final(self).wf(),
            final(self).topic_spec() == old(self).topic_spec(),
            final(self).mesh_spec() == old(self).mesh_spec(),
            forall|x: u64|
                final(self).aware_spec().contains(x) <==> (old(self).aware_spec().contains(x)
                    || x == h),
    {
        if !holds(&self.aware, h) {
            let ghost pre = self.aware@;
            self.aware.push(h);
            proof {
                assert forall|p: int, q: int|
                    0 <= p < self.aware@.len() && 0 <= q < self.aware@.len() && p != q
                    implies self.aware@[p] != self.aware@[q] by {
                    if q == pre.len() {
                        assert(pre.contains(self.aware@[p]));
                    } else if p == pre.len() {
                        assert(pre.contains(self.aware@[q]));
                    }
                }
                assert forall|x: u64| self.mesh@.contains(x) implies self.aware@.contains(x) by {
                    let k = choose|k: int| 0 <= k < pre.len() && pre[k] == x;
                    assert(self.aware@[k] == x);
                }
            }
        }
    }

    /// A graft request from `h`: accepted when `h` is aware of the topic and is in
    /// the mesh already or the mesh has room below `d_hi`; then `h` is in the mesh.
    pub fn graft(&mut self, h: u64, d_hi: usize) -> (r: bool)
        requires
            old(self).wf(),
        ensures
            final(self).wf(),
            final(self).topic_spec() == old(self).topic_spec(),
            final(self).aware_spec() == old(self).aware_spec(),
            r == (old(self).aware_spec().contains(h) && (old(self).mesh_spec().contains(h)
                || old(self).mesh_spec().len() < d_hi)),
            forall|x: u64|
                final(self).mesh_spec().contains(x) <==> (old(self).mesh_spec().contains(x) || (r
                    && x == h)),
    {
        if !holds(&self.aware, h) {
            return false;
        }
        if holds(&self.mesh, h) {
            return true;
        }
        if self.mesh.len() >= d_hi {
            return false;
        }
        let ghost pre = self.mesh@;
        self.mesh.push(h);
        proof {
            assert forall|p: int, q: int|
                0 <= p < self.mesh@.len() && 0 <= q < self.mesh@.len() && p != q
                implies self.mesh@[p] != self.mesh@[q] by {
                if q == pre.len() {
                    assert(pre.contains(self.mesh@[p]));
                } else if p == pre.len() {
                    assert(pre.contains(self.mesh@[q]));
                }
            }
        }
        true
    }

    /// A prune from `h`: `h` leaves the mesh and stays aware of the topic.
    pub fn prune(&mut self, h: u64)
        requires
            old(self).wf(),
        ensures
            final(self).wf(),
            final(self).topic_spec() == old(self).topic_spec(),
            final(self).aware_spec() == old(self).aware_spec(),
            forall|x: u64|
                final(self).mesh_spec().contains(x) <==> (old(self).mesh_spec().contains(x) && x
                    != h),
    {
        let gone = vec![h];
        assert(forall|x: u64| gone@.contains(x) <==> x == h) by {
            assert(gone@[0] == h);
        }
        self.mesh = difference(&self.mesh, &gone);
    }

    /// Drops `h` from the mesh and from the aware peers.
    pub fn remove_peer(&mut self, h: u64)
        requires
            old(self).wf(),
        ensures
            final(self).wf(),
            final(self).topic_spec() == old(self).topic_spec(),
            forall|x: u64|
                final(self).mesh_spec().contains(x) <==> (old(self).mesh_spec().contains(x) && x
                    != h),
            forall|x: u64|
                final(self).aware_spec().contains(x) <==> (old(self).aware_spec().contains(x)
                    && x != h),
    {
        let gone = vec![h];
        assert(forall|x: u64| gone@.contains(x) <==> x == h) by {
            assert(gone@[0] == h);
        }
        self.mesh = difference(&self.mesh, &gone);
        self.aware = difference(&self.aware, &gone);
    }

    /// The heartbeat: below `d_lo` mesh peers, grafts aware peers in random order
    /// until `d_lo` or until none is left; above `d_hi`, prunes random mesh peers
    /// down to `d_hi`. Returns the grafted and the pruned peers.
    pub fn rebalance(&mut self, d_lo: usize, d_hi: usize, seed: u64) -> (r: (Vec<u64>, Vec<u64>))
        requires
            old(self).wf(),
            d_lo <= d_hi,
        ensures
            final(self).wf(),
            final(self).topic_spec() == old(self).topic_spec(),
            final(self).aware_spec() == old(self).aware_spec(),
            old(self).mesh_spec().len() < d_lo ==> {
                &&& final(self).mesh_spec() == old(self).mesh_spec() + r.0@
                &&& final(self).mesh_spec().len() == if old(self).aware_spec().len() < d_lo {
                    old(self).aware_spec().len()
                } else {
                    d_lo as nat
                }
                &&& r.1@.len() == 0
            },
            old(self).mesh_spec().len() > d_hi ==> {
                &&& final(self).mesh_spec().len() == d_hi
                &&& r.0@.len() == 0
                &&& forall|x: u64|
                    old(self).mesh_spec().contains(x) <==> (final(self).mesh_spec().contains(x)
                        || r.1@.contains(x))
                &&& forall|x: u64|
                    final(self).mesh_spec().contains(x) ==> !r.1@.contains(x)
            },
            d_lo <= old(self).mesh_spec().len() <= d_hi ==> final(self).mesh_spec()
                == old(self).mesh_spec() && r.0@.len() == 0 && r.1@.len() == 0,
            final(self).rebalanced(old(self), d_lo, d_hi),
    {
        let mut grafted: Vec<u64> = Vec::new();
        let mut pruned: Vec<u64> = Vec::new();
        if self.mesh.len() < d_lo {
            let ghost old_mesh = self.mesh@;
            let mut cand = difference(&self.aware, &self.mesh);
            shuffle(&mut cand, seed);
            let mut i: usize = 0;
            while i < cand.len() && self.mesh.len() < d_lo
                invariant
                    self.wf(),
                    self.aware@ == old(self).aware@,
                    self.topic@ == old(self).topic@,
                    old_mesh == old(self).mesh@,
                    i <= cand@.len(),
                    cand@.no_duplicates(),
                    forall|x: u64| cand@.contains(x) <==> (old(self).aware@.contains(x) && !old_mesh.contains(x)),
                    grafted@ == cand@.subrange(0, i as int),
                    self.mesh@ == old_mesh + grafted@,
                    self.mesh@.len() <= d_lo,
                decreases cand@.len() - i,
            {
                let x = cand[i];
                let ghost pre = self.mesh@;
                proof {
                    assert(cand@.contains(x));
                    assert(!grafted@.contains(x)) by {
                        if grafted@.contains(x) {
                            let k = choose|k: int| 0 <= k < grafted@.len() && grafted@[k] == x;
                            assert(cand@[k] == cand@[i as int]);
                        }
                    }
                    assert(!pre.contains(x)) by {
                        if pre.contains(x) {
                            let k = choose|k: int| 0 <= k < pre.len() && pre[k] == x;
                            if k < old_mesh.len() {
                                assert(old_mesh.contains(x));
                            } else {
                                assert(grafted@[k - old_mesh.len()] == x);
                            }
                        }
                    }
                }
                self.mesh.push(x);
                grafted.push(x);
                i = i + 1;
                proof {
                    assert(grafted@ =~= cand@.subrange(0, i as int));
                    assert(self.mesh@ =~= old_mesh + grafted@);
                    assert forall|p: int, q: int|
                        0 <= p < self.mesh@.len() && 0 <= q < self.mesh@.len() && p != q
                        implies self.mesh@[p] != self.mesh@[q] by {
                        if q == pre.len() {
                            assert(pre.contains(self.mesh@[p]));
                        } else if p == pre.len() {
                            assert(pre.contains(self.mesh@[q]));
                        }
                    }
                    assert forall|y: u64| self.mesh@.contains(y) implies self.aware@.contains(y) by {
                        let k = choose|k: int| 0 <= k < self.mesh@.len() && self.mesh@[k] == y;
                        if k < pre.len() {
                            assert(pre.contains(y));
                        }
                    }
                }
            }
            proof {
                lemma_within_len(self.mesh@, self.aware@);
                if self.mesh@.len() < d_lo {
                    assert(i == cand@.len());
                    assert(grafted@ =~= cand@);
                    assert forall|y: u64| self.aware@.contains(y) implies self.mesh@.contains(y) by {
                        if old_mesh.contains(y) {
                            let k = choose|k: int| 0 <= k < old_mesh.len() && old_mesh[k] == y;
                            assert(self.mesh@[k] == y);
                        } else {
                            assert(cand@.contains(y));
                            let k = choose|k: int| 0 <= k < cand@.len() && cand@[k] == y;
                            assert(self.mesh@[old_mesh.len() + k] == y);
                        }
                    }
                    lemma_within_len(self.aware@, self.mesh@);
                    assert(self.mesh@.len() == self.aware@.len());
                }
                assert forall|y: u64| old_mesh.contains(y) implies self.mesh@.contains(y) by {
                    let k = choose|k: int| 0 <= k < old_mesh.len() && old_mesh[k] == y;
                    assert(self.mesh@[k] == y);
                }
            }
        } else if self.mesh.len() > d_hi {
            let ghost old_mesh = self.mesh@;
            shuffle(&mut self.mesh, seed);
            let ghost mixed = self.mesh@;
            pruned = self.mesh.split_off(d_hi);
            proof {
                assert(mixed =~= self.mesh@ + pruned@);
                assert forall|x: u64| old_mesh.contains(x) <==> (self.mesh@.contains(x) || pruned@.contains(x)) by {
                    if mixed.contains(x) {
                        let k = choose|k: int| 0 <= k < mixed.len() && mixed[k] == x;
                        if k < d_hi {
                            assert(self.mesh@[k] == x);
                        } else {
                            assert(pruned@[k - d_hi] == x);
                        }
                    }
                    if self.mesh@.contains(x) {
                        let k = choose|k: int| 0 <= k < self.mesh@.len() && self.mesh@[k] == x;
                        assert(mixed[k] == x);
                    }
                    if pruned@.contains(x) {
                        let k = choose|k: int| 0 <= k < pruned@.len() && pruned@[k] == x;
                        assert(mixed[d_hi + k] == x);
                    }
                }
                assert forall|x: u64| self.mesh@.contains(x) implies !pruned@.contains(x) by {
                    let k = choose|k: int| 0 <= k < self.mesh@.len() && self.mesh@[k] == x;
                    if pruned@.contains(x) {
                        let m = choose|m: int| 0 <= m < pruned@.len() && pruned@[m] == x;
                        assert(mixed[k] == mixed[d_hi + m]);
                    }
                }
                assert forall|p: int, q: int|
                    0 <= p < self.mesh@.len() && 0 <= q < self.mesh@.len() && p != q
                    implies self.mesh@[p] != self.mesh@[q] by {
                    assert(mixed[p] != mixed[q]);
                }
                assert(within(self.mesh@, old_mesh));
            }
        }
        (grafted, pruned)
    }
}

/// After a heartbeat, a topic with at least `d_lo` aware peers has a mesh of
/// between `d_lo` and `d_hi` peers.
pub proof fn lemma_mesh_within_marks(before: &TopicMesh, after: &TopicMesh, d_lo: usize, d_hi: usize)
    requires
        before.wf(),
        after.wf(),
        d_lo <= d_hi,
        after.rebalanced(before, d_lo, d_hi),
        after.aware_spec().len() >= d_lo,
    ensures
        d_lo <= after.mesh_spec().len() <= d_hi,
{
}

} // verus!
