use vstd::prelude::*;

verus! {

/// Transport-assigned identifier of one socket peer (its routing id).
pub type PeerId = u32;

/// The set of peers that currently receive fan-out.
pub struct PeerRegistry {
    peers: Vec<PeerId>,
}

impl View for PeerRegistry {
    type V = Set<PeerId>;

    closed spec fn view(&self) -> Set<PeerId> {
        self.peers@.to_set()
    }
}

proof fn lemma_push_contains(s: Seq<PeerId>, p: PeerId, x: PeerId)
    ensures
        s.push(p).contains(x) <==> (s.contains(x) || x == p),
{
    if s.contains(x) {
        let k = choose|k: int| 0 <= k < s.len() && s[k] == x;
        assert(s.push(p)[k] == x);
    }
    if x == p {
        assert(s.push(p)[s.len() as int] == p);
    }
    if s.push(p).contains(x) {
        let k = choose|k: int| 0 <= k < s.len() + 1 && s.push(p)[k] == x;
        if k < s.len() {
            assert(s[k] == x);
        }
    }
}

impl PeerRegistry {
    /// Each peer is held once.
    pub closed spec fn wf(&self) -> bool {
        self.peers@.no_duplicates()
    }

    pub fn new() -> (r: PeerRegistry)
        ensures
            r.wf(),
            r@ == Set::<PeerId>::empty(),
    {
        let r = PeerRegistry { peers: Vec::new() };
        assert(r.peers@.to_set() =~= Set::<PeerId>::empty());
        r
    }

    pub fn contains(&self, id: PeerId) -> (r: bool)
        ensures
            r == self@.contains(id),
    {
        let mut i: usize = 0;
        while i < self.peers.len()
            invariant
                i <= self.peers@.len(),
                forall|j: int| 0 <= j < i ==> self.peers@[j] != id,
            decreases self.peers@.len() - i,
        {
            if self.peers[i] == id {
                return true;
            }
            i = i + 1;
        }
        false
    }

    /// Adds `id`; returns whether it was new.
    pub fn insert(&mut self, id: PeerId) -> (r: bool)
        requires
            old(self).wf(),
        ensures
            final(self).wf(),
            final(self)@ == old(self)@.insert(id),
            r == !old(self)@.contains(id),
    {
        if self.contains(id) {
            assert(self@.insert(id) =~= self@);
            false
        } else {
            let ghost before = self.peers@;
            self.peers.push(id);
            assert(self.peers@ =~= before.push(id));
            proof {
                before.lemma_push_to_set_commute(id);
            }
            true
        }
    }

    /// Removes `id` if present.
    pub fn remove(&mut self, id: PeerId)
        requires
            old(self).wf(),
        ensures
            final(self).wf(),
            final(self)@ == old(self)@.remove(id),
    {
        let ghost before = self.peers@;
        let mut kept: Vec<PeerId> = Vec::new();
        let mut i: usize = 0;
        while i < self.peers.len()
            invariant
                i <= self.peers@.len(),
                self.peers@ == before,
                before.no_duplicates(),
                kept@.no_duplicates(),
                forall|x: PeerId| kept@.contains(x) <==> (x != id && before.take(i as int).contains(x)),
            decreases self.peers@.len() - i,
        {
            let p = self.peers[i];
            proof {
                assert(before.take(i + 1) =~= before.take(i as int).push(p));
                assert forall|x: PeerId| #[trigger] before.take(i + 1).contains(x) <==> (before.take(i as int).contains(x) || x == p) by {
                    lemma_push_contains(before.take(i as int), p, x);
                }
            }
            let ghost kept_before = kept@;
            if p != id {
                proof {
                    assert(!kept@.contains(p)) by {
                        if kept@.contains(p) {
                            let k = choose|k: int| 0 <= k < i && before[k] == p;
                            assert(before.take(i as int)[k] == p);
                        }
                    }
                }
                kept.push(p);
                proof {
                    assert forall|x: PeerId| #[trigger] kept@.contains(x) <==> (kept_before.contains(x) || x == p) by {
                        lemma_push_contains(kept_before, p, x);
                    }
                }
            }
            i = i + 1;
        }
        assert(before.take(i as int) =~= before);
        self.peers = kept;
        assert(self.peers@.to_set() =~= before.to_set().remove(id));
    }

    /// The peers, each once, for one fan-out.
    pub fn snapshot(&self) -> (r: Vec<PeerId>)
        requires
            self.wf(),
        ensures
            r@.no_duplicates(),
            r@.to_set() == self@,
    {
        self.peers.clone()
    }

    pub fn len(&self) -> (r: usize)
        requires
            self.wf(),
        ensures
            r == self@.len(),
    {
        proof {
            self.peers@.unique_seq_to_set();
        }
        self.peers.len()
    }
}

} // verus!
