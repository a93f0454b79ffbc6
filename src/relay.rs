use vstd::prelude::*;
use crate::codec::{decode_frame, encode, encode_spec, frame_of};
use crate::envelope::{Envelope, EnvelopeModel, RelayMessage};
use crate::registry::{PeerId, PeerRegistry};

verus! {

/// What the socket-ingress loop does after one frame.
pub enum IngressAction {
    /// Post the message to its chat channel.
    Post(RelayMessage),
    /// A keep-alive: nothing beyond registering the sender.
    KeepAlive,
    /// The frame holds no envelope: it is dropped.
    Malformed,
}

/// One chat event, encoded, and the peers it is to be sent to.
pub struct FanOut {
    pub frame: String,
    pub targets: Vec<PeerId>,
}

/// The peers among `targets` whose send failed.
pub open spec fn failed_peers(targets: Seq<PeerId>, delivered: Seq<bool>) -> Set<PeerId> {
    Set::new(|p: PeerId| exists|i: int| 0 <= i < targets.len() && targets[i] == p && !delivered[i])
}

/// The peers among `targets` whose send succeeded.
pub open spec fn delivered_peers(targets: Seq<PeerId>, delivered: Seq<bool>) -> Set<PeerId> {
    Set::new(|p: PeerId| exists|i: int| 0 <= i < targets.len() && targets[i] == p && delivered[i])
}

/// A fan-out over the registry reaches exactly the peers that were
/// registered when it started, less those whose send failed.
pub proof fn lemma_fan_out_reach(start: Set<PeerId>, targets: Seq<PeerId>, delivered: Seq<bool>)
    requires
        targets.no_duplicates(),
        targets.to_set() == start,
        targets.len() == delivered.len(),
    ensures
        delivered_peers(targets, delivered) == start.difference(failed_peers(targets, delivered)),
{
    assert forall|p: PeerId| #[trigger] delivered_peers(targets, delivered).contains(p) <==> start.difference(
        failed_peers(targets, delivered),
    ).contains(p) by {
        if delivered_peers(targets, delivered).contains(p) {
            let i = choose|i: int| 0 <= i < targets.len() && targets[i] == p && delivered[i];
            assert(targets.to_set().contains(p));
            if failed_peers(targets, delivered).contains(p) {
                let j = choose|j: int| 0 <= j < targets.len() && targets[j] == p && !delivered[j];
                assert(i != j);
            }
        }
        if start.difference(failed_peers(targets, delivered)).contains(p) {
            assert(targets.to_set().contains(p));
            let i = choose|i: int| 0 <= i < targets.len() && targets[i] == p;
            if !delivered[i] {
                assert(failed_peers(targets, delivered).contains(p));
            }
        }
    }
    assert(delivered_peers(targets, delivered) =~= start.difference(failed_peers(targets, delivered)));
}

/// A peer leaves the registry in a fan-out only if its send in that fan-out
/// failed, and no send to it in that fan-out succeeded.
pub proof fn lemma_evicted_only_on_failure(
    start: Set<PeerId>,
    targets: Seq<PeerId>,
    delivered: Seq<bool>,
    p: PeerId,
)
    requires
        targets.no_duplicates(),
        targets.len() == delivered.len(),
        start.contains(p),
        !start.difference(failed_peers(targets, delivered)).contains(p),
    ensures
        exists|i: int| 0 <= i < targets.len() && targets[i] == p && !delivered[i],
        !delivered_peers(targets, delivered).contains(p),
{
    let i = choose|i: int| 0 <= i < targets.len() && targets[i] == p && !delivered[i];
    if delivered_peers(targets, delivered).contains(p) {
        let j = choose|j: int| 0 <= j < targets.len() && targets[j] == p && delivered[j];
        assert(i != j);
    }
}

/// The broker state shared by the chat-ingress and socket-ingress sides.
pub struct Relay {
    registry: PeerRegistry,
    heard_from: Ghost<Set<PeerId>>,
}

impl Relay {
    /// The peers that currently receive fan-out.
    pub closed spec fn peers(&self) -> Set<PeerId> {
        self.registry@
    }

    /// Every peer from which a frame was decoded so far.
    pub closed spec fn heard_from(&self) -> Set<PeerId> {
        self.heard_from@
    }

    pub closed spec fn wf(&self) -> bool {
        &&& self.registry.wf()
        &&& self.registry@.subset_of(self.heard_from@)
    }

    /// Every registered peer has sent a frame that decoded.
    pub proof fn lemma_registered_were_heard(&self)
        requires
            self.wf(),
        ensures
            self.peers().subset_of(self.heard_from()),
    {
    }

    pub fn new() -> (r: Relay)
        ensures
            r.wf(),
            r.peers() == Set::<PeerId>::empty(),
            r.heard_from() == Set::<PeerId>::empty(),
    {
        Relay { registry: PeerRegistry::new(), heard_from: Ghost(Set::empty()) }
    }

    pub fn is_registered(&self, id: PeerId) -> (r: bool)
        ensures
            r == self.peers().contains(id),
    {
        self.registry.contains(id)
    }

    pub fn peer_count(&self) -> (r: usize)
        requires
            self.wf(),
        ensures
            r == self.peers().len(),
    {
        self.registry.len()
    }

    /// Handles one frame from the socket. A decoded frame registers its
    /// sender; a frame that holds no envelope changes nothing.
    pub fn handle_frame(&mut self, sender: Option<PeerId>, payload: &[u8]) -> (r: IngressAction)
        requires
            old(self).wf(),
        ensures
            final(self).wf(),
            old(self).peers().subset_of(final(self).peers()),
            r is Malformed <==> !(exists|m: EnvelopeModel| frame_of(payload@, m)),
            forall|channel_id: u64, content: Seq<char>| #[trigger] frame_of(payload@, EnvelopeModel::Message { channel_id, content })
                ==> (r matches IngressAction::Post(msg) && msg.channel_id == channel_id && msg.content@ == content),
            frame_of(payload@, EnvelopeModel::KeepAlive) ==> r is KeepAlive,
            r is Malformed || sender is None ==> final(self).peers() == old(self).peers()
                && final(self).heard_from() == old(self).heard_from(),
            !(r is Malformed) && sender is Some ==> final(self).peers() == old(self).peers().insert(sender->0)
                && final(self).heard_from() == old(self).heard_from().insert(sender->0),
    {
        match decode_frame(payload) {
            Some(e) => {
                if let Some(id) = sender {
                    self.registry.insert(id);
                    self.heard_from = Ghost(self.heard_from@.insert(id));
                }
                match e {
                    Envelope::Message(msg) => IngressAction::Post(msg),
                    Envelope::KeepAlive => IngressAction::KeepAlive,
                }
            },
            None => IngressAction::Malformed,
        }
    }

    /// Starts the fan-out of one chat event: its frame and every registered
    /// peer, each once.
    pub fn chat_event(&self, channel_id: u64, content: String) -> (r: FanOut)
        requires
            self.wf(),
        ensures
            r.frame@ == encode_spec(EnvelopeModel::Message { channel_id, content: content@ }),
            r.targets@.no_duplicates(),
            r.targets@.to_set() == self.peers(),
    {
        let frame = encode(&Envelope::Message(RelayMessage::new(channel_id, content)));
        FanOut { frame, targets: self.registry.snapshot() }
    }

    /// Ends a fan-out: `delivered[i]` tells whether the send to `targets[i]`
    /// succeeded; every peer whose send failed leaves the registry.
    pub fn complete_fan_out(&mut self, targets: &Vec<PeerId>, delivered: &Vec<bool>)
        requires
            old(self).wf(),
            targets@.len() == delivered@.len(),
        ensures
            final(self).wf(),
            final(self).peers() == old(self).peers().difference(failed_peers(targets@, delivered@)),
            final(self).heard_from() == old(self).heard_from(),
    {
        let ghost start = self.registry@;
        let mut i: usize = 0;
        while i < targets.len()
            invariant
                i <= targets@.len(),
                targets@.len() == delivered@.len(),
                self.wf(),
                self.heard_from@ == old(self).heard_from@,
                self.registry@ == start.difference(failed_peers(targets@.take(i as int), delivered@.take(i as int))),
            decreases targets@.len() - i,
        {
            let ghost before = self.registry@;
            if !delivered[i] {
                self.registry.remove(targets[i]);
            }
            proof {
                let t0 = targets@.take(i as int);
                let d0 = delivered@.take(i as int);
                let t1 = targets@.take(i + 1);
                let d1 = delivered@.take(i + 1);
                assert forall|p: PeerId| #[trigger] failed_peers(t1, d1).contains(p) <==> (failed_peers(t0, d0).contains(p)
                    || (p == targets@[i as int] && !delivered@[i as int])) by {
                    if failed_peers(t0, d0).contains(p) {
                        let k = choose|k: int| 0 <= k < t0.len() && t0[k] == p && !d0[k];
                        assert(t1[k] == p && !d1[k]);
                    }
                    if p == targets@[i as int] && !delivered@[i as int] {
                        assert(t1[i as int] == p && !d1[i as int]);
                    }
                    if failed_peers(t1, d1).contains(p) {
                        let k = choose|k: int| 0 <= k < t1.len() && t1[k] == p && !d1[k];
                        if k < i {
                            assert(t0[k] == p && !d0[k]);
                        }
                    }
                }
                assert(self.registry@ =~= start.difference(failed_peers(t1, d1)));
            }
            i = i + 1;
        }
        assert(targets@.take(i as int) =~= targets@);
        assert(delivered@.take(i as int) =~= delivered@);
    }
}

} // verus!
