use vstd::prelude::*;

verus! {

/// The view of a collection of worker identities: each `String` as its
/// sequence of characters.
pub open spec fn ids(s: Seq<String>) -> Seq<Seq<char>> {
    s.map_values(|x: String| x@)
}

/// Shared bookkeeping of worker identities, partitioned into the
/// *allocated* set (currently hashing) and the *deallocated* set
/// (voluntarily parked), together with the pending-deallocation counter
/// and the dataset-initialization readiness counter.
///
/// The well-formedness predicate `wf` carries the registry invariants:
/// the two sets never hold more than `max_workers` identities in total,
/// they are disjoint, identities are unique, and the readiness counter
/// never exceeds the allocated count.
pub struct Registry {
    pub alloc_set: Vec<String>,
    pub dealloc_set: Vec<String>,
    pub dealloc_requests: u32,
    pub up_counter: u32,
    pub max_workers: u32,
}

impl Registry {
    /// No identity occurs twice in `s`.
    pub open spec fn unique(s: Seq<Seq<char>>) -> bool {
        forall|i: int, j: int| 0 <= i < j < s.len() ==> s[i] != s[j]
    }

    pub open spec fn alloc_ids(&self) -> Seq<Seq<char>> {
        ids(self.alloc_set@)
    }

    pub open spec fn dealloc_ids(&self) -> Seq<Seq<char>> {
        ids(self.dealloc_set@)
    }

    /// Registry invariants: capacity bound, disjointness, uniqueness,
    /// and the readiness bound.
    pub open spec fn wf(&self) -> bool {
        &&& self.alloc_set@.len() + self.dealloc_set@.len() <= self.max_workers
        &&& forall|i: int, j: int|
            0 <= i < self.alloc_ids().len() && 0 <= j < self.dealloc_ids().len()
                ==> self.alloc_ids()[i] != self.dealloc_ids()[j]
        &&& Self::unique(self.alloc_ids())
        &&& Self::unique(self.dealloc_ids())
        &&& self.up_counter <= self.alloc_set@.len()
    }

    pub open spec fn member(s: Seq<Seq<char>>, id: Seq<char>) -> bool {
        exists|i: int| 0 <= i < s.len() && s[i] == id
    }

    /// An empty registry for a pool of at most `max_workers` workers.
    pub fn new(max_workers: u32) -> (r: Registry)
        ensures
            r.wf(),
            r.alloc_ids() =~= Seq::<Seq<char>>::empty(),
            r.dealloc_ids() =~= Seq::<Seq<char>>::empty(),
            r.dealloc_requests == 0,
            r.up_counter == 0,
            r.max_workers == max_workers,
    {
        Registry {
            alloc_set: Vec::new(),
            dealloc_set: Vec::new(),
            dealloc_requests: 0,
            up_counter: 0,
            max_workers,
        }
    }

    /// Appends a freshly spawned worker's identity to the allocated set.
    pub fn register(&mut self, id: String)
        requires
            old(self).wf(),
            !Self::member(old(self).alloc_ids(), id@),
            !Self::member(old(self).dealloc_ids(), id@),
            old(self).alloc_set@.len() + old(self).dealloc_set@.len() < old(self).max_workers,
        ensures
            final(self).wf(),
            final(self).alloc_ids() =~= old(self).alloc_ids().push(id@),
            final(self).dealloc_set == old(self).dealloc_set,
            final(self).dealloc_requests == old(self).dealloc_requests,
            final(self).up_counter == old(self).up_counter,
            final(self).max_workers == old(self).max_workers,
            register_step(*old(self), id@, *final(self)),
    {
        let ghost pre = ids(self.alloc_set@);
        self.alloc_set.push(id);
        proof {
            assert(ids(self.alloc_set@) =~= pre.push(id@));
        }
    }

    /// Records that one worker has finished dataset initialization.
    pub fn mark_up(&mut self)
        requires
            old(self).wf(),
            old(self).up_counter < old(self).alloc_set@.len(),
        ensures
            final(self).wf(),
            final(self).up_counter == old(self).up_counter + 1,
            final(self).alloc_set == old(self).alloc_set,
            final(self).dealloc_set == old(self).dealloc_set,
            final(self).dealloc_requests == old(self).dealloc_requests,
            final(self).max_workers == old(self).max_workers,
            up_step(*old(self), *final(self)),
    {
        proof {
            assert(self.alloc_set@.len() <= self.max_workers);
        }
        self.up_counter = self.up_counter + 1;
    }

    /// Zeroes the readiness counter ahead of a key-block rotation.
    pub fn reset_readiness(&mut self)
        requires
            old(self).wf(),
        ensures
            final(self).wf(),
            final(self).up_counter == 0,
            final(self).alloc_set == old(self).alloc_set,
            final(self).dealloc_set == old(self).dealloc_set,
            final(self).dealloc_requests == old(self).dealloc_requests,
            final(self).max_workers == old(self).max_workers,
    {
        self.up_counter = 0;
    }

    /// Sets the pending-deallocation counter: the number of workers that
    /// should park themselves.
    pub fn request_deallocations(&mut self, n: u32)
        requires
            old(self).wf(),
        ensures
            final(self).wf(),
            final(self).dealloc_requests == n,
            final(self).alloc_set == old(self).alloc_set,
            final(self).dealloc_set == old(self).dealloc_set,
            final(self).up_counter == old(self).up_counter,
            final(self).max_workers == old(self).max_workers,
    {
        self.dealloc_requests = n;
    }

    /// Invoked by a running worker once per loop iteration. While
    /// deallocations are pending, the caller parks: the counter is
    /// decremented and its identity moves from the allocated to the
    /// deallocated set, leaving the readiness count. Exactly
    /// `dealloc_requests` callers observe `true`.
    pub fn try_park(&mut self, id: &String) -> (parked: bool)
        requires
            old(self).wf(),
            Self::member(old(self).alloc_ids(), id@),
            old(self).up_counter >= 1,
        ensures
            final(self).wf(),
            parked == (old(self).dealloc_requests > 0),
            !parked ==> *final(self) == *old(self),
            parked ==> park_step(*old(self), id@, *final(self)),
    {
        if self.dealloc_requests == 0 {
            return false;
        }
        self.dealloc_requests = self.dealloc_requests - 1;
        let ghost pre_alloc = ids(self.alloc_set@);
        let ghost pre_dealloc = ids(self.dealloc_set@);
        let j = find_id(&self.alloc_set, id);
        let removed = self.alloc_set.remove(j);
        self.dealloc_set.push(removed);
        self.up_counter = self.up_counter - 1;
        proof {
            assert(ids(self.alloc_set@) =~= pre_alloc.remove(j as int));
            assert(ids(self.dealloc_set@) =~= pre_dealloc.push(id@));
            let post_a = ids(self.alloc_set@);
            let post_d = ids(self.dealloc_set@);
            assert forall|i: int, k: int|
                0 <= i < post_a.len() && 0 <= k < post_d.len() implies post_a[i]
                    != post_d[k] by {
                if i < j {
                    assert(post_a[i] == pre_alloc[i]);
                } else {
                    assert(post_a[i] == pre_alloc[i + 1]);
                }
                if k < pre_dealloc.len() {
                    assert(post_d[k] == pre_dealloc[k]);
                } else {
                    assert(post_d[k] == id@);
                    assert(pre_alloc[j as int] == id@);
                }
            }
            assert(Registry::unique(post_a)) by {
                assert forall|i: int, k: int| 0 <= i < k < post_a.len() implies post_a[i]
                    != post_a[k] by {
                    assert(post_a[i] == if i < j {
                        pre_alloc[i]
                    } else {
                        pre_alloc[i + 1]
                    });
                    assert(post_a[k] == if k < j {
                        pre_alloc[k]
                    } else {
                        pre_alloc[k + 1]
                    });
                }
            }
            assert(Registry::unique(post_d)) by {
                assert forall|i: int, k: int| 0 <= i < k < post_d.len() implies post_d[i]
                    != post_d[k] by {
                    if k < pre_dealloc.len() {
                        assert(post_d[i] == pre_dealloc[i]);
                        assert(post_d[k] == pre_dealloc[k]);
                    } else {
                        assert(post_d[i] == pre_dealloc[i]);
                        assert(post_d[k] == id@);
                        assert(pre_alloc[j as int] == id@);
                    }
                }
            }
        }
        true
    }

    /// Invoked by the supervisor on a capacity increase: removes the
    /// first `count` parked identities, in insertion order, and hands
    /// them back so that fresh workers can be spawned under them.
    pub fn reactivate(&mut self, count: usize) -> (taken: Vec<String>)
        requires
            old(self).wf(),
            count <= old(self).dealloc_set@.len(),
        ensures
            final(self).wf(),
            ids(taken@) =~= old(self).dealloc_ids().take(count as int),
            final(self).dealloc_ids() =~= old(self).dealloc_ids().skip(count as int),
            final(self).alloc_set == old(self).alloc_set,
            final(self).dealloc_requests == old(self).dealloc_requests,
            final(self).up_counter == old(self).up_counter,
            final(self).max_workers == old(self).max_workers,
    {
        let mut taken: Vec<String> = Vec::new();
        let mut k: usize = 0;
        while k < count
            invariant
                k <= count,
                count <= old(self).dealloc_set@.len(),
                ids(taken@) =~= old(self).dealloc_ids().take(k as int),
                ids(self.dealloc_set@) =~= old(self).dealloc_ids().skip(k as int),
                self.alloc_set == old(self).alloc_set,
                self.dealloc_requests == old(self).dealloc_requests,
                self.up_counter == old(self).up_counter,
                self.max_workers == old(self).max_workers,
                old(self).wf(),
            decreases count - k,
        {
            let ghost pre_taken = ids(taken@);
            let ghost pre_dealloc = ids(self.dealloc_set@);
            proof {
                assert(pre_dealloc.len() == self.dealloc_set@.len());
                assert(pre_dealloc.len() == old(self).dealloc_ids().len() - k);
                assert(self.dealloc_set@.len() > 0);
            }
            let moved = self.dealloc_set.remove(0);
            taken.push(moved);
            k = k + 1;
            proof {
                assert(moved@ == pre_dealloc[0]);
                assert(pre_dealloc[0] == old(self).dealloc_ids()[k - 1]);
                assert(ids(taken@) =~= pre_taken.push(moved@));
                assert(ids(self.dealloc_set@) =~= pre_dealloc.remove(0));
                assert(ids(taken@) =~= old(self).dealloc_ids().take(k as int));
                assert(ids(self.dealloc_set@) =~= old(self).dealloc_ids().skip(k as int));
            }
        }
        proof {
            lemma_wf_after_drop(*old(self), *self, count as int);
        }
        taken
    }

    /// Counts for logging and control decisions.
    pub fn snapshot(&self) -> (s: RegistrySnapshot)
        requires
            self.wf(),
        ensures
            s.n_alloc == self.alloc_set@.len(),
            s.n_dealloc == self.dealloc_set@.len(),
            s.dealloc_requests == self.dealloc_requests,
            s.up_counter == self.up_counter,
    {
        RegistrySnapshot {
            n_alloc: self.alloc_set.len() as u32,
            n_dealloc: self.dealloc_set.len() as u32,
            dealloc_requests: self.dealloc_requests,
            up_counter: self.up_counter,
        }
    }
}

/// The counts a `snapshot` reports.
pub struct RegistrySnapshot {
    pub n_alloc: u32,
    pub n_dealloc: u32,
    pub dealloc_requests: u32,
    pub up_counter: u32,
}

/// What one successful park does to the registry: the pending counter
/// and the readiness counter each drop by one, the identity leaves the
/// allocated set and is appended to the deallocated set.
pub open spec fn park_step(pre: Registry, id: Seq<char>, post: Registry) -> bool {
    &&& pre.wf()
    &&& post.wf()
    &&& pre.dealloc_requests >= 1
    &&& pre.up_counter >= 1
    &&& post.dealloc_requests == pre.dealloc_requests - 1
    &&& post.up_counter == pre.up_counter - 1
    &&& (exists|j: int|
        0 <= j < pre.alloc_ids().len() && pre.alloc_ids()[j] == id && post.alloc_ids()
            =~= pre.alloc_ids().remove(j))
    &&& post.dealloc_ids() =~= pre.dealloc_ids().push(id)
    &&& post.max_workers == pre.max_workers
}

/// What registering one freshly spawned worker does to the registry:
/// the identity, new to both sets, is appended to the allocated set.
pub open spec fn register_step(pre: Registry, id: Seq<char>, post: Registry) -> bool {
    &&& pre.wf()
    &&& post.wf()
    &&& !Registry::member(pre.alloc_ids(), id)
    &&& !Registry::member(pre.dealloc_ids(), id)
    &&& post.alloc_ids() =~= pre.alloc_ids().push(id)
    &&& post.dealloc_ids() =~= pre.dealloc_ids()
    &&& post.dealloc_requests == pre.dealloc_requests
    &&& post.up_counter == pre.up_counter
    &&& post.max_workers == pre.max_workers
}

/// What one worker's completed dataset initialization does to the
/// registry: the readiness counter alone goes up by one.
pub open spec fn up_step(pre: Registry, post: Registry) -> bool {
    &&& pre.wf()
    &&& post.wf()
    &&& post.up_counter == pre.up_counter + 1
    &&& post.alloc_ids() =~= pre.alloc_ids()
    &&& post.dealloc_ids() =~= pre.dealloc_ids()
    &&& post.dealloc_requests == pre.dealloc_requests
    &&& post.max_workers == pre.max_workers
}

/// One respawned worker's whole start-up, as the registry sees it:
/// it registers, runs dataset initialization, and reports up.
pub open spec fn respawn_step(pre: Registry, id: Seq<char>, post: Registry) -> bool {
    exists|mid: Registry| register_step(pre, id, mid) && up_step(mid, post)
}

/// The capacity bound `|alloc_set| + |dealloc_set| <= max_workers`
/// holds of every well-formed registry, hence at every tick.
pub proof fn lemma_registry_capacity(r: Registry)
    requires
        r.wf(),
    ensures
        r.alloc_ids().len() + r.dealloc_ids().len() <= r.max_workers,
{
}

/// The allocated and the deallocated sets never share an identity:
/// their intersection is empty at every observation point.
pub proof fn lemma_registry_disjoint(r: Registry, id: Seq<char>)
    requires
        r.wf(),
        Registry::member(r.alloc_ids(), id),
    ensures
        !Registry::member(r.dealloc_ids(), id),
{
    let i = choose|i: int| 0 <= i < r.alloc_ids().len() && r.alloc_ids()[i] == id;
    assert forall|j: int| 0 <= j < r.dealloc_ids().len() implies r.dealloc_ids()[j] != id by {
        assert(r.alloc_ids()[i] != r.dealloc_ids()[j]);
    }
}

/// After a capacity decrease by `d = parked.len()` workers, once `d`
/// workers have each parked, the pending-deallocation counter is back
/// to zero, the deallocated set grew by exactly `d`, and the allocated
/// set and the readiness counter each shrank by exactly `d`.
pub proof fn lemma_deallocation_drains(states: Seq<Registry>, parked: Seq<Seq<char>>)
    requires
        states.len() == parked.len() + 1,
        states[0].dealloc_requests == parked.len(),
        forall|t: int|
            0 <= t < parked.len() ==> #[trigger] park_step(states[t], parked[t], states[t + 1]),
    ensures
        states.last().dealloc_requests == 0,
        states.last().dealloc_ids().len() == states[0].dealloc_ids().len() + parked.len(),
        states.last().alloc_ids().len() + parked.len() == states[0].alloc_ids().len(),
        states.last().up_counter + parked.len() == states[0].up_counter,
    decreases parked.len(),
{
    if parked.len() == 0 {
        assert(states.last() == states[0]);
    } else {
        let t0: int = 0;
        assert(park_step(states[t0], parked[t0], states[t0 + 1]));
        assert(park_step(states[0], parked[0], states[1]));
        let j = choose|j: int|
            0 <= j < states[0].alloc_ids().len() && states[0].alloc_ids()[j] == parked[0]
                && states[1].alloc_ids() =~= states[0].alloc_ids().remove(j);
        assert(states[1].alloc_ids().len() + 1 == states[0].alloc_ids().len());
        let s2 = states.skip(1);
        let p2 = parked.skip(1);
        assert(s2[0] == states[1]);
        assert forall|t: int| 0 <= t < p2.len() implies #[trigger] park_step(
            s2[t],
            p2[t],
            s2[t + 1],
        ) by {
            assert(park_step(states[t + 1], parked[t + 1], states[t + 1 + 1]));
            assert(s2[t] == states[t + 1]);
            assert(s2[t + 1] == states[t + 2]);
        }
        lemma_deallocation_drains(s2, p2);
        assert(s2.last() == states.last());
    }
}

/// After a capacity increase that hands back a reactivation batch, the
/// respawned workers register and initialize one by one; when the last
/// has reported up, the readiness counter again equals the allocated
/// count, and the allocated set grew by exactly the batch size.
pub proof fn lemma_respawn_restores_readiness(states: Seq<Registry>, spawned: Seq<Seq<char>>)
    requires
        states.len() == spawned.len() + 1,
        states[0].up_counter == states[0].alloc_ids().len(),
        forall|t: int|
            0 <= t < spawned.len() ==> #[trigger] respawn_step(states[t], spawned[t], states[t + 1]),
    ensures
        states.last().up_counter == states.last().alloc_ids().len(),
        states.last().alloc_ids().len() == states[0].alloc_ids().len() + spawned.len(),
        states.last().dealloc_ids().len() == states[0].dealloc_ids().len(),
    decreases spawned.len(),
{
    if spawned.len() == 0 {
        assert(states.last() == states[0]);
    } else {
        let t0: int = 0;
        assert(respawn_step(states[t0], spawned[t0], states[t0 + 1]));
        assert(respawn_step(states[0], spawned[0], states[1]));
        let mid = choose|mid: Registry|
            register_step(states[0], spawned[0], mid) && up_step(mid, states[1]);
        assert(states[1].alloc_ids().len() == states[0].alloc_ids().len() + 1);
        assert(states[1].up_counter == states[1].alloc_ids().len());
        let s2 = states.skip(1);
        let p2 = spawned.skip(1);
        assert(s2[0] == states[1]);
        assert forall|t: int| 0 <= t < p2.len() implies #[trigger] respawn_step(
            s2[t],
            p2[t],
            s2[t + 1],
        ) by {
            assert(respawn_step(states[t + 1], spawned[t + 1], states[t + 1 + 1]));
            assert(s2[t] == states[t + 1]);
            assert(s2[t + 1] == states[t + 2]);
        }
        lemma_respawn_restores_readiness(s2, p2);
        assert(s2.last() == states.last());
    }
}

/// Finds the position of `id` in `v`; the caller guarantees membership.
fn find_id(v: &Vec<String>, id: &String) -> (j: usize)
    requires
        Registry::member(ids(v@), id@),
    ensures
        j < v@.len(),
        v@[j as int]@ == id@,
{
    let mut j: usize = 0;
    while j < v.len()
        invariant
            j <= v@.len(),
            Registry::member(ids(v@), id@),
            forall|k: int| 0 <= k < j ==> ids(v@)[k] != id@,
        decreases v@.len() - j,
    {
        if v[j] == *id {
            return j;
        }
        j = j + 1;
    }
    proof {
        let i = choose|i: int| 0 <= i < ids(v@).len() && ids(v@)[i] == id@;
        assert(false);
    }
    0
}

proof fn lemma_wf_after_drop(pre: Registry, post: Registry, count: int)
    requires
        pre.wf(),
        0 <= count <= pre.dealloc_ids().len(),
        post.dealloc_ids() =~= pre.dealloc_ids().skip(count),
        post.alloc_set == pre.alloc_set,
        post.up_counter == pre.up_counter,
        post.max_workers == pre.max_workers,
    ensures
        post.wf(),
{
    assert forall|i: int, j: int|
        0 <= i < post.alloc_ids().len() && 0 <= j < post.dealloc_ids().len()
            implies post.alloc_ids()[i] != post.dealloc_ids()[j] by {
        assert(post.dealloc_ids()[j] == pre.dealloc_ids()[j + count]);
    }
    assert(Registry::unique(post.dealloc_ids())) by {
        assert forall|i: int, j: int|
            0 <= i < j < post.dealloc_ids().len() implies post.dealloc_ids()[i]
                != post.dealloc_ids()[j] by {
            assert(post.dealloc_ids()[i] == pre.dealloc_ids()[i + count]);
            assert(post.dealloc_ids()[j] == pre.dealloc_ids()[j + count]);
        }
    }
}

} // verus!
