//! The nodes of an artifact-sharing swarm: a local artifact store and a table of peers.
use vstd::prelude::*;
use crate::merkle::{clone_texts, texts};

verus! {

/// A peer as announced to the swarm: its id, its socket address as text
/// (such as `127.0.0.1:8080`), the hashes of the artifacts it offers, and its latency.
#[derive(Debug, Clone)]
pub struct PeerDescriptor {
    pub node_id: String,
    pub addr: String,
    pub available_artifacts: Vec<String>,
    pub latency_ms: u64,
}

/// A peer by its contents: id, address, offered artifact hashes, latency.
pub type PeerView = (Seq<char>, Seq<char>, Seq<Seq<char>>, u64);

impl View for PeerDescriptor {
    type V = PeerView;

    open spec fn view(&self) -> PeerView {
        (self.node_id@, self.addr@, texts(self.available_artifacts@), self.latency_ms)
    }
}

/// The views of a sequence of peers.
pub open spec fn peer_views(s: Seq<PeerDescriptor>) -> Seq<PeerView> {
    s.map_values(|p: PeerDescriptor| p@)
}

/// Whether a peer offers the artifact with hash `hash`.
pub open spec fn offers(p: PeerView, hash: Seq<char>) -> bool {
    p.2.contains(hash)
}

impl PeerDescriptor {
    /// A copy with the same contents.
    pub fn duplicate(&self) -> (res: PeerDescriptor)
        ensures
            res@ == self@,
    {
        PeerDescriptor {
            node_id: self.node_id.clone(),
            addr: self.addr.clone(),
            available_artifacts: clone_texts(&self.available_artifacts),
            latency_ms: self.latency_ms,
        }
    }

    /// Whether this peer offers the artifact with hash `artifact_hash`.
    pub fn offers_artifact(&self, artifact_hash: &str) -> (res: bool)
        ensures
            res == offers(self@, artifact_hash@),
            res <==> exists|i: int|
                0 <= i < self.available_artifacts@.len() && #[trigger] self.available_artifacts@[i]@
                    == artifact_hash@,
    {
        let key = artifact_hash.to_owned();
        let mut i: usize = 0;
        while i < self.available_artifacts.len()
            invariant
                key@ == artifact_hash@,
                i <= self.available_artifacts@.len(),
                forall|j: int| 0 <= j < i ==> self.available_artifacts@[j]@ != key@,
            decreases self.available_artifacts@.len() - i,
        {
            if self.available_artifacts[i] == key {
                proof {
                    assert(texts(self.available_artifacts@)[i as int] == key@);
                }
                return true;
            }
            i = i + 1;
        }
        proof {
            if texts(self.available_artifacts@).contains(key@) {
                let j = choose|j: int| 0 <= j < texts(self.available_artifacts@).len() && texts(self.available_artifacts@)[j] == key@;
                assert(self.available_artifacts@[j]@ == key@);
            }
        }
        false
    }
}

/// Artifacts by hash, each hash once.
pub struct ArtifactStore {
    entries: Vec<(String, Vec<u8>)>,
    contents: Ghost<Map<Seq<char>, Seq<u8>>>,
}

impl ArtifactStore {
    /// The stored artifacts by hash.
    pub closed spec fn contents_view(&self) -> Map<Seq<char>, Seq<u8>> {
        self.contents@
    }

    #[verifier::type_invariant]
    spec fn consistent(self) -> bool {
        &&& forall|i: int, j: int|
            0 <= i < j < self.entries@.len() ==> #[trigger] self.entries@[i].0@ != #[trigger] self.entries@[j].0@
        &&& forall|i: int|
            0 <= i < self.entries@.len() ==> #[trigger] self.contents@.contains_key(self.entries@[i].0@)
                && self.contents@[self.entries@[i].0@] == self.entries@[i].1@
        &&& forall|k: Seq<char>|
            #[trigger] self.contents@.contains_key(k) ==> exists|i: int|
                0 <= i < self.entries@.len() && #[trigger] self.entries@[i].0@ == k
    }

    fn new() -> (s: ArtifactStore)
        ensures
            s.contents@ == Map::<Seq<char>, Seq<u8>>::empty(),
    {
        ArtifactStore { entries: Vec::new(), contents: Ghost(Map::empty()) }
    }

    fn position(&self, key: &String) -> (res: Option<usize>)
        ensures
            match res {
                Some(i) => i < self.entries@.len() && self.entries@[i as int].0@ == key@,
                None => !self.contents@.contains_key(key@),
            },
    {
        proof {
            use_type_invariant(self);
        }
        let mut i: usize = 0;
        while i < self.entries.len()
            invariant
                i <= self.entries@.len(),
                forall|j: int| 0 <= j < i ==> self.entries@[j].0@ != key@,
            decreases self.entries@.len() - i,
        {
            if self.entries[i].0 == *key {
                return Some(i);
            }
            i = i + 1;
        }
        None
    }

    fn insert(&mut self, key: String, data: Vec<u8>)
        ensures
            final(self).contents@ == old(self).contents@.insert(key@, data@),
    {
        proof {
            use_type_invariant(&*self);
        }
        let ghost k = key@;
        let ghost d = data@;
        let ghost before = self.entries@;
        let ghost old_contents = self.contents@;
        match self.position(&key) {
            Some(i) => {
                let ghost m = self.contents@.insert(k, d);
                let mut taken = ArtifactStore::new();
                std::mem::swap(self, &mut taken);
                let ArtifactStore { mut entries, contents: _ } = taken;
                entries.set(i, (key, data));
                proof {
                    assert forall|a: int, b: int| 0 <= a < b < entries@.len() implies #[trigger] entries@[a].0@
                        != #[trigger] entries@[b].0@ by {
                        assert(before[a].0@ != before[b].0@);
                    }
                    assert forall|a: int| 0 <= a < entries@.len() implies #[trigger] m.contains_key(entries@[a].0@)
                        && m[entries@[a].0@] == entries@[a].1@ by {
                        if a != i {
                            assert(before[a].0@ != before[i as int].0@ || a == i);
                            assert(entries@[a] == before[a]);
                        }
                    }
                    assert forall|kk: Seq<char>| #[trigger] m.contains_key(kk) implies exists|a: int|
                        0 <= a < entries@.len() && #[trigger] entries@[a].0@ == kk by {
                        if kk == k {
                            assert(entries@[i as int].0@ == kk);
                        } else {
                            let a = choose|a: int| 0 <= a < before.len() && #[trigger] before[a].0@ == kk;
                            assert(entries@[a].0@ == kk);
                        }
                    }
                    let cand = ArtifactStore { entries: entries, contents: Ghost(m) };
                    assert(cand.entries@ == entries@);
                    assert(cand.contents@ == m);
                    assert(cand.consistent());
                }
                *self = ArtifactStore { entries, contents: Ghost(m) };
            },
            None => {
                let ghost m = self.contents@.insert(k, d);
                let mut taken = ArtifactStore::new();
                std::mem::swap(self, &mut taken);
                let ArtifactStore { mut entries, contents: _ } = taken;
                entries.push((key, data));
                proof {
                    assert forall|a: int, b: int| 0 <= a < b < entries@.len() implies #[trigger] entries@[a].0@
                        != #[trigger] entries@[b].0@ by {
                        if b == before.len() {
                            assert(old_contents.contains_key(before[a].0@));
                        } else {
                            assert(before[a].0@ != before[b].0@);
                        }
                    }
                    assert forall|a: int| 0 <= a < entries@.len() implies #[trigger] m.contains_key(entries@[a].0@)
                        && m[entries@[a].0@] == entries@[a].1@ by {
                        if a < before.len() {
                            assert(entries@[a] == before[a]);
                            assert(old_contents.contains_key(before[a].0@));
                        }
                    }
                    assert forall|kk: Seq<char>| #[trigger] m.contains_key(kk) implies exists|a: int|
                        0 <= a < entries@.len() && #[trigger] entries@[a].0@ == kk by {
                        if kk == k {
                            assert(entries@[before.len() as int].0@ == kk);
                        } else {
                            let a = choose|a: int| 0 <= a < before.len() && #[trigger] before[a].0@ == kk;
                            assert(entries@[a].0@ == kk);
                        }
                    }
                    let cand = ArtifactStore { entries: entries, contents: Ghost(m) };
                    assert(cand.entries@ == entries@);
                    assert(cand.contents@ == m);
                    assert(cand.consistent());
                }
                *self = ArtifactStore { entries, contents: Ghost(m) };
            },
        }
    }

    fn get(&self, key: &String) -> (res: Option<Vec<u8>>)
        ensures
            res is Some <==> self.contents@.contains_key(key@),
            res matches Some(d) ==> d@ == self.contents@[key@],
    {
        proof {
            use_type_invariant(self);
        }
        match self.position(key) {
            Some(i) => {
                proof {
                    assert(self.contents@.contains_key(self.entries@[i as int].0@));
                }
                Some(self.entries[i].1.clone())
            },
            None => None,
        }
    }

    fn keys(&self) -> (res: Vec<String>)
        ensures
            forall|a: int, b: int| 0 <= a < b < res@.len() ==> #[trigger] res@[a]@ != #[trigger] res@[b]@,
            texts(res@).to_set() == self.contents@.dom(),
    {
        proof {
            use_type_invariant(self);
        }
        let mut out: Vec<String> = Vec::new();
        let mut i: usize = 0;
        while i < self.entries.len()
            invariant
                i <= self.entries@.len(),
                out@.len() == i,
                forall|j: int| 0 <= j < i ==> #[trigger] out@[j]@ == self.entries@[j].0@,
            decreases self.entries@.len() - i,
        {
            out.push(self.entries[i].0.clone());
            i = i + 1;
        }
        proof {
            assert forall|a: int, b: int| 0 <= a < b < out@.len() implies #[trigger] out@[a]@ != #[trigger] out@[b]@ by {
                assert(self.entries@[a].0@ != self.entries@[b].0@);
            }
            assert forall|k: Seq<char>| #[trigger] texts(out@).to_set().contains(k) <==> self.contents@.dom().contains(k) by {
                if texts(out@).contains(k) {
                    let j = choose|j: int| 0 <= j < texts(out@).len() && texts(out@)[j] == k;
                    assert(self.contents@.contains_key(self.entries@[j].0@));
                }
                if self.contents@.contains_key(k) {
                    let j = choose|j: int| 0 <= j < self.entries@.len() && #[trigger] self.entries@[j].0@ == k;
                    assert(texts(out@)[j] == k);
                }
            }
            assert(texts(out@).to_set() =~= self.contents@.dom());
        }
        out
    }
}

/// A node of the swarm: its id, its socket address as text, and the artifacts it holds.
pub struct P2PNode {
    pub id: String,
    pub addr: String,
    pub store: ArtifactStore,
}

impl P2PNode {
    /// The artifacts the node holds, by hash.
    pub open spec fn artifacts(&self) -> Map<Seq<char>, Seq<u8>> {
        self.store.contents_view()
    }

    /// A node that holds no artifacts.
    pub fn new(id: String, addr: String) -> (node: P2PNode)
        ensures
            node.id@ == id@,
            node.addr@ == addr@,
            node.artifacts() == Map::<Seq<char>, Seq<u8>>::empty(),
    {
        P2PNode { id, addr, store: ArtifactStore::new() }
    }

    /// Stores `data` under `hash`, replacing what was stored under it.
    pub fn store_artifact(&mut self, hash: &str, data: Vec<u8>)
        ensures
            final(self).id == old(self).id,
            final(self).addr == old(self).addr,
            final(self).artifacts() == old(self).artifacts().insert(hash@, data@),
    {
        self.store.insert(hash.to_owned(), data);
    }

    /// The artifact stored under `hash`, if any.
    pub fn get_artifact(&self, hash: &str) -> (res: Option<Vec<u8>>)
        ensures
            res is Some <==> self.artifacts().contains_key(hash@),
            res matches Some(d) ==> d@ == self.artifacts()[hash@],
    {
        let key = hash.to_owned();
        self.store.get(&key)
    }

    /// The hashes of the stored artifacts, each once.
    pub fn list_artifacts(&self) -> (res: Vec<String>)
        ensures
            forall|a: int, b: int| 0 <= a < b < res@.len() ==> #[trigger] res@[a]@ != #[trigger] res@[b]@,
            texts(res@).to_set() == self.artifacts().dom(),
    {
        self.store.keys()
    }
}

/// Whether some peer of `peers` has the id `id`.
pub open spec fn has_peer(peers: Seq<PeerView>, id: Seq<char>) -> bool {
    exists|i: int| 0 <= i < peers.len() && #[trigger] peers[i].0 == id
}

/// The position of the peer with id `id` (meaningful where there is one).
pub open spec fn peer_position(peers: Seq<PeerView>, id: Seq<char>) -> int {
    choose|i: int| 0 <= i < peers.len() && #[trigger] peers[i].0 == id
}

/// The peers after `peer` is registered: it takes the place of the peer with
/// its id where there is one, and comes last otherwise.
pub open spec fn registered(peers: Seq<PeerView>, peer: PeerView) -> Seq<PeerView> {
    if has_peer(peers, peer.0) {
        peers.update(peer_position(peers, peer.0), peer)
    } else {
        peers.push(peer)
    }
}

/// The peers after the peer with id `id` is forgotten.
pub open spec fn without_peer(peers: Seq<PeerView>, id: Seq<char>) -> Seq<PeerView> {
    if has_peer(peers, id) {
        peers.remove(peer_position(peers, id))
    } else {
        peers
    }
}

/// Whether no two peers share an id.
pub open spec fn distinct_ids(peers: Seq<PeerView>) -> bool {
    forall|i: int, j: int| 0 <= i < j < peers.len() ==> #[trigger] peers[i].0 != #[trigger] peers[j].0
}

/// The swarm as one node sees it: the node itself and the peers it knows,
/// each peer id once, in the order in which they were first registered.
pub struct P2PSwarmManager {
    local_node: P2PNode,
    peers: Vec<PeerDescriptor>,
}

impl P2PSwarmManager {
    /// The known peers.
    pub closed spec fn peers_view(&self) -> Seq<PeerView> {
        peer_views(self.peers@)
    }

    /// The local node.
    pub closed spec fn local_view(&self) -> P2PNode {
        self.local_node
    }

    #[verifier::type_invariant]
    spec fn ids_distinct(self) -> bool {
        distinct_ids(peer_views(self.peers@))
    }

    /// A manager for `local_node` that knows no peers yet.
    pub fn new(local_node: P2PNode) -> (m: P2PSwarmManager)
        ensures
            m.local_view() == local_node,
            m.peers_view() == Seq::<PeerView>::empty(),
            distinct_ids(m.peers_view()),
    {
        let m = P2PSwarmManager { local_node, peers: Vec::new() };
        proof {
            assert(peer_views(m.peers@) =~= Seq::<PeerView>::empty());
        }
        m
    }

    fn find_peer(&self, node_id: &String) -> (res: Option<usize>)
        ensures
            match res {
                Some(i) => i < self.peers_view().len() && self.peers_view()[i as int].0 == node_id@,
                None => !has_peer(self.peers_view(), node_id@),
            },
    {
        let mut i: usize = 0;
        while i < self.peers.len()
            invariant
                i <= self.peers@.len(),
                forall|j: int| 0 <= j < i ==> self.peers@[j].node_id@ != node_id@,
            decreases self.peers@.len() - i,
        {
            if self.peers[i].node_id == *node_id {
                return Some(i);
            }
            i = i + 1;
        }
        proof {
            if has_peer(self.peers_view(), node_id@) {
                let j = choose|j: int| 0 <= j < self.peers_view().len() && #[trigger] self.peers_view()[j].0 == node_id@;
                assert(self.peers@[j].node_id@ == node_id@);
            }
        }
        None
    }

    /// Registers `peer`, replacing the peer with the same id where there is one.
    pub fn register_peer(&mut self, peer: PeerDescriptor)
        ensures
            final(self).local_view() == old(self).local_view(),
            final(self).peers_view() == registered(old(self).peers_view(), peer@),
            distinct_ids(final(self).peers_view()),
    {
        proof {
            use_type_invariant(&*self);
        }
        let ghost before = self.peers_view();
        let ghost pv = peer@;
        match self.find_peer(&peer.node_id) {
            Some(i) => {
                proof {
                    let p = peer_position(before, pv.0);
                    assert(before[p].0 == pv.0);
                    if p != i as int {
                        if p < i {
                            assert(before[p].0 != before[i as int].0);
                        } else {
                            assert(before[i as int].0 != before[p].0);
                        }
                    }
                }
                let mut taken: Vec<PeerDescriptor> = Vec::new();
                std::mem::swap(&mut taken, &mut self.peers);
                taken.set(i, peer);
                proof {
                    assert(peer_views(taken@) =~= before.update(i as int, pv));
                    assert forall|a: int, b: int| 0 <= a < b < peer_views(taken@).len() implies #[trigger] peer_views(taken@)[a].0
                        != #[trigger] peer_views(taken@)[b].0 by {
                        if a != i && b != i {
                            assert(before[a].0 != before[b].0);
                        } else if a == i {
                            assert(before[a].0 != before[b].0);
                        } else {
                            assert(before[a].0 != before[b].0);
                        }
                    }
                }
                self.peers = taken;
            },
            None => {
                let mut taken: Vec<PeerDescriptor> = Vec::new();
                std::mem::swap(&mut taken, &mut self.peers);
                taken.push(peer);
                proof {
                    assert(peer_views(taken@) =~= before.push(pv));
                    assert forall|a: int, b: int| 0 <= a < b < peer_views(taken@).len() implies #[trigger] peer_views(taken@)[a].0
                        != #[trigger] peer_views(taken@)[b].0 by {
                        if b == before.len() {
                            if before[a].0 == pv.0 {
                                assert(has_peer(before, pv.0));
                            }
                        } else {
                            assert(before[a].0 != before[b].0);
                        }
                    }
                }
                self.peers = taken;
            },
        }
    }

    /// Forgets the peer with id `node_id`, handing it back; `None` where there is none.
    pub fn remove_peer(&mut self, node_id: &str) -> (res: Option<PeerDescriptor>)
        ensures
            final(self).local_view() == old(self).local_view(),
            res is Some <==> has_peer(old(self).peers_view(), node_id@),
            res matches Some(p) ==> p@ == old(self).peers_view()[peer_position(old(self).peers_view(), node_id@)],
            final(self).peers_view() == without_peer(old(self).peers_view(), node_id@),
            distinct_ids(final(self).peers_view()),
    {
        proof {
            use_type_invariant(&*self);
        }
        let ghost before = self.peers_view();
        let key = node_id.to_owned();
        match self.find_peer(&key) {
            Some(i) => {
                proof {
                    let p = peer_position(before, key@);
                    assert(before[p].0 == key@);
                    if p != i as int {
                        if p < i {
                            assert(before[p].0 != before[i as int].0);
                        } else {
                            assert(before[i as int].0 != before[p].0);
                        }
                    }
                }
                let mut taken: Vec<PeerDescriptor> = Vec::new();
                std::mem::swap(&mut taken, &mut self.peers);
                let removed = taken.remove(i);
                proof {
                    assert(peer_views(taken@) =~= before.remove(i as int));
                    assert forall|a: int, b: int| 0 <= a < b < peer_views(taken@).len() implies #[trigger] peer_views(taken@)[a].0
                        != #[trigger] peer_views(taken@)[b].0 by {
                        if b < i {
                            assert(before[a].0 != before[b].0);
                        } else if a < i {
                            assert(before[a].0 != before[b + 1].0);
                        } else {
                            assert(before[a + 1].0 != before[b + 1].0);
                        }
                    }
                }
                self.peers = taken;
                Some(removed)
            },
            None => None,
        }
    }

    /// The known peers that offer the artifact with hash `artifact_hash`, in order.
    pub fn find_peers_with_artifact(&self, artifact_hash: &str) -> (res: Vec<PeerDescriptor>)
        ensures
            peer_views(res@) == self.peers_view().filter(|p: PeerView| offers(p, artifact_hash@)),
            peer_views(res@) == self.peers_view().filter(|p: PeerView| p.2.contains(artifact_hash@)),
    {
        let ghost all = self.peers_view();
        let ghost pred = |p: PeerView| offers(p, artifact_hash@);
        let mut out: Vec<PeerDescriptor> = Vec::new();
        let mut i: usize = 0;
        while i < self.peers.len()
            invariant
                i <= self.peers@.len(),
                all == peer_views(self.peers@),
                pred == |p: PeerView| offers(p, artifact_hash@),
                peer_views(out@) == all.take(i as int).filter(pred),
            decreases self.peers@.len() - i,
        {
            let ghost before = out@;
            proof {
                reveal_with_fuel(Seq::<_>::filter, 1);
                assert(all.take(i + 1).drop_last() =~= all.take(i as int));
                assert(all.take(i + 1).last() == self.peers@[i as int]@);
            }
            if self.peers[i].offers_artifact(artifact_hash) {
                let copy = self.peers[i].duplicate();
                out.push(copy);
                proof {
                    assert(peer_views(out@) =~= peer_views(before).push(self.peers@[i as int]@));
                }
            }
            i = i + 1;
        }
        proof {
            assert(all.take(self.peers@.len() as int) =~= all);
            assert((|p: PeerView| offers(p, artifact_hash@)) =~= (|p: PeerView| p.2.contains(artifact_hash@)));
        }
        out
    }

    /// The artifact with hash `artifact_hash` where the local node holds it.
    /// No transfer from peers takes place: `None` otherwise.
    pub fn sync_artifact_from_swarm(&self, artifact_hash: &str, chunk_size: usize) -> (res: Option<Vec<u8>>)
        ensures
            res is Some <==> self.local_view().artifacts().contains_key(artifact_hash@),
            res matches Some(d) ==> d@ == self.local_view().artifacts()[artifact_hash@],
    {
        self.local_node.get_artifact(artifact_hash)
    }

    /// The local node.
    pub fn get_local_node(&self) -> (res: &P2PNode)
        ensures
            *res == self.local_view(),
    {
        &self.local_node
    }

    /// The number of known peers.
    pub fn peer_count(&self) -> (res: usize)
        ensures
            res == self.peers_view().len(),
            distinct_ids(self.peers_view()),
    {
        proof {
            use_type_invariant(self);
        }
        self.peers.len()
    }
}

/// Law: once registered, a peer is known by its id, it is found for every
/// artifact it offers, the count grows by one exactly when its id was new, and
/// no two peers share an id.
pub proof fn lemma_registered_peer_found(peers: Seq<PeerView>, peer: PeerView, hash: Seq<char>)
    requires
        distinct_ids(peers),
    ensures
        distinct_ids(registered(peers, peer)),
        has_peer(registered(peers, peer), peer.0),
        registered(peers, peer)[peer_position(registered(peers, peer), peer.0)] == peer,
        offers(peer, hash) ==> registered(peers, peer).filter(|p: PeerView| offers(p, hash)).contains(peer),
        registered(peers, peer).len() == if has_peer(peers, peer.0) {
            peers.len()
        } else {
            peers.len() + 1
        },
{
    let after = registered(peers, peer);
    let k: int = if has_peer(peers, peer.0) {
        peer_position(peers, peer.0)
    } else {
        peers.len() as int
    };
    if has_peer(peers, peer.0) {
        assert(peers[k].0 == peer.0);
    }
    assert(after[k] == peer);
    assert forall|a: int, b: int| 0 <= a < b < after.len() implies #[trigger] after[a].0 != #[trigger] after[b].0 by {
        if a != k && b != k {
            assert(after[a] == peers[a] && after[b] == peers[b]);
        } else if a == k {
            if has_peer(peers, peer.0) {
                assert(peers[a].0 != peers[b].0);
            }
        } else {
            if has_peer(peers, peer.0) {
                assert(peers[a].0 != peers[b].0);
            } else {
                assert(after[a] == peers[a]);
                if peers[a].0 == peer.0 {
                    assert(has_peer(peers, peer.0));
                }
            }
        }
    }
    assert(has_peer(after, peer.0));
    let q = peer_position(after, peer.0);
    if q != k {
        if q < k {
            assert(after[q].0 != after[k].0);
        } else {
            assert(after[k].0 != after[q].0);
        }
    }
    if offers(peer, hash) {
        after.lemma_filter_contains(|p: PeerView| offers(p, hash), k);
    }
}

/// Law: once the peer with id `id` is removed, no peer has that id, every
/// other peer is still known, and the count shrinks by one exactly when there was one.
pub proof fn lemma_removed_peer_gone(peers: Seq<PeerView>, id: Seq<char>, other: Seq<char>)
    requires
        distinct_ids(peers),
    ensures
        !has_peer(without_peer(peers, id), id),
        distinct_ids(without_peer(peers, id)),
        other != id ==> (has_peer(without_peer(peers, id), other) == has_peer(peers, other)),
        without_peer(peers, id).len() == if has_peer(peers, id) {
            peers.len() - 1
        } else {
            peers.len() as int
        },
{
    let after = without_peer(peers, id);
    if has_peer(peers, id) {
        let k = peer_position(peers, id);
        assert(peers[k].0 == id);
        assert forall|a: int, b: int| 0 <= a < b < after.len() implies #[trigger] after[a].0 != #[trigger] after[b].0 by {
            if b < k {
                assert(peers[a].0 != peers[b].0);
            } else if a < k {
                assert(peers[a].0 != peers[b + 1].0);
            } else {
                assert(peers[a + 1].0 != peers[b + 1].0);
            }
        }
        if has_peer(after, id) {
            let j = choose|j: int| 0 <= j < after.len() && #[trigger] after[j].0 == id;
            if j < k {
                assert(peers[j].0 != peers[k].0);
            } else {
                assert(peers[k].0 != peers[j + 1].0);
            }
        }
        if other != id {
            if has_peer(peers, other) {
                let j = choose|j: int| 0 <= j < peers.len() && #[trigger] peers[j].0 == other;
                if j < k {
                    assert(after[j].0 == other);
                } else {
                    assert(j != k);
                    assert(after[j - 1].0 == other);
                }
            }
            if has_peer(after, other) {
                let j = choose|j: int| 0 <= j < after.len() && #[trigger] after[j].0 == other;
                if j < k {
                    assert(peers[j].0 == other);
                } else {
                    assert(peers[j + 1].0 == other);
                }
            }
        }
    }
}

/// Law: removing a peer whose id was new when it was registered gives back
/// the peers as they were before.
pub proof fn lemma_remove_undoes_register(peers: Seq<PeerView>, peer: PeerView)
    requires
        distinct_ids(peers),
        !has_peer(peers, peer.0),
    ensures
        without_peer(registered(peers, peer), peer.0) == peers,
{
    let after = registered(peers, peer);
    lemma_registered_peer_found(peers, peer, peer.0);
    let k = peer_position(after, peer.0);
    if k != peers.len() {
        assert(after[k] == peers[k]);
        assert(has_peer(peers, peer.0));
    }
    assert(after.remove(k) =~= peers);
}

/// Law: reading an artifact gives back what was last stored under its hash;
/// storing under one hash leaves every other hash as it was.
pub proof fn lemma_read_after_store(
    before: Map<Seq<char>, Seq<u8>>,
    hash: Seq<char>,
    data: Seq<u8>,
    other: Seq<char>,
)
    ensures
        before.insert(hash, data).contains_key(hash),
        before.insert(hash, data)[hash] == data,
        other != hash ==> (before.insert(hash, data).contains_key(other) == before.contains_key(other)),
        other != hash && before.contains_key(other) ==> before.insert(hash, data)[other] == before[other],
{
}

/// One call on a peer table: registering a peer, or removing the peer with an id.
pub enum PeerChange {
    Register(PeerView),
    Remove(Seq<char>),
}

/// The peers after the calls `changes`, in order, starting from `peers`.
pub open spec fn apply_changes(peers: Seq<PeerView>, changes: Seq<PeerChange>) -> Seq<PeerView>
    decreases changes.len(),
{
    if changes.len() == 0 {
        peers
    } else {
        let before = apply_changes(peers, changes.drop_last());
        match changes.last() {
            PeerChange::Register(p) => registered(before, p),
            PeerChange::Remove(id) => without_peer(before, id),
        }
    }
}

/// The ids registered by `changes` and not removed after their last registration.
pub open spec fn live_ids(changes: Seq<PeerChange>) -> Set<Seq<char>>
    decreases changes.len(),
{
    if changes.len() == 0 {
        Set::empty()
    } else {
        let before = live_ids(changes.drop_last());
        match changes.last() {
            PeerChange::Register(p) => before.insert(p.0),
            PeerChange::Remove(id) => before.remove(id),
        }
    }
}

/// Law: registering a peer leaves every other id known or unknown as it was.
pub proof fn lemma_register_keeps_others(peers: Seq<PeerView>, peer: PeerView, other: Seq<char>)
    requires
        distinct_ids(peers),
        other != peer.0,
    ensures
        has_peer(registered(peers, peer), other) == has_peer(peers, other),
{
    let after = registered(peers, peer);
    if has_peer(peers, peer.0) {
        let k = peer_position(peers, peer.0);
        if has_peer(peers, other) {
            let j = choose|j: int| 0 <= j < peers.len() && #[trigger] peers[j].0 == other;
            assert(j != k);
            assert(after[j].0 == other);
        }
        if has_peer(after, other) {
            let j = choose|j: int| 0 <= j < after.len() && #[trigger] after[j].0 == other;
            assert(j != k);
            assert(peers[j].0 == other);
        }
    } else {
        if has_peer(peers, other) {
            let j = choose|j: int| 0 <= j < peers.len() && #[trigger] peers[j].0 == other;
            assert(after[j].0 == other);
        }
        if has_peer(after, other) {
            let j = choose|j: int| 0 <= j < after.len() && #[trigger] after[j].0 == other;
            assert(j < peers.len());
            assert(peers[j].0 == other);
        }
    }
}

/// Law: over any sequence of registrations and removals from an empty table,
/// the ids stay distinct, the known ids are exactly those registered and not
/// removed since, and the peer count is their number.
pub proof fn lemma_peer_count_over_history(changes: Seq<PeerChange>)
    ensures
        distinct_ids(apply_changes(Seq::empty(), changes)),
        live_ids(changes).finite(),
        forall|id: Seq<char>|
            has_peer(apply_changes(Seq::empty(), changes), id) <==> #[trigger] live_ids(changes).contains(id),
        apply_changes(Seq::empty(), changes).len() == live_ids(changes).len(),
    decreases changes.len(),
{
    if changes.len() > 0 {
        let rest = changes.drop_last();
        lemma_peer_count_over_history(rest);
        let before = apply_changes(Seq::empty(), rest);
        let live = live_ids(rest);
        let after = apply_changes(Seq::empty(), changes);
        match changes.last() {
            PeerChange::Register(p) => {
                lemma_registered_peer_found(before, p, p.0);
                assert forall|id: Seq<char>| has_peer(after, id) <==> #[trigger] live_ids(changes).contains(id) by {
                    if id != p.0 {
                        lemma_register_keeps_others(before, p, id);
                    }
                }
                assert(live.contains(p.0) == has_peer(before, p.0));
            },
            PeerChange::Remove(id0) => {
                lemma_removed_peer_gone(before, id0, id0);
                assert forall|id: Seq<char>| has_peer(after, id) <==> #[trigger] live_ids(changes).contains(id) by {
                    lemma_removed_peer_gone(before, id0, id);
                }
                assert(live.contains(id0) == has_peer(before, id0));
            },
        }
    } else {
        assert forall|id: Seq<char>| !has_peer(Seq::<PeerView>::empty(), id) by {}
    }
}

/// The artifacts held after storing each `(hash, data)` of `stores` in turn, starting from `start`.
pub open spec fn stored_after(start: Map<Seq<char>, Seq<u8>>, stores: Seq<(Seq<char>, Seq<u8>)>) -> Map<
    Seq<char>,
    Seq<u8>,
>
    decreases stores.len(),
{
    if stores.len() == 0 {
        start
    } else {
        stored_after(start, stores.drop_last()).insert(stores.last().0, stores.last().1)
    }
}

/// The data of the last store under `hash` among `stores`, if there is one.
pub open spec fn last_stored(stores: Seq<(Seq<char>, Seq<u8>)>, hash: Seq<char>) -> Option<Seq<u8>>
    decreases stores.len(),
{
    if stores.len() == 0 {
        None
    } else if stores.last().0 == hash {
        Some(stores.last().1)
    } else {
        last_stored(stores.drop_last(), hash)
    }
}

/// Law: after any sequence of stores on a node that held nothing, reading a
/// hash gives what its last store wrote, and nothing where it was never stored.
pub proof fn lemma_read_after_store_history(stores: Seq<(Seq<char>, Seq<u8>)>, hash: Seq<char>)
    ensures
        stored_after(Map::empty(), stores).contains_key(hash) <==> last_stored(stores, hash) is Some,
        last_stored(stores, hash) matches Some(d) ==> stored_after(Map::empty(), stores)[hash] == d,
    decreases stores.len(),
{
    if stores.len() > 0 {
        lemma_read_after_store_history(stores.drop_last(), hash);
    }
}

/// Law: whether a peer offers an artifact depends on its list of artifact
/// hashes alone: it does exactly when the hash is in the list, whatever its id,
/// address or latency.
pub proof fn lemma_offers_reads_only_artifacts(p: PeerView, q: PeerView, hash: Seq<char>)
    ensures
        offers(p, hash) <==> exists|i: int| 0 <= i < p.2.len() && #[trigger] p.2[i] == hash,
        p.2 == q.2 ==> offers(p, hash) == offers(q, hash),
{
}

} // verus!
