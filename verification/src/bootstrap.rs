//! The bootstrap gate of a node: until it has bootstrapped, a node waits for
//! enough allowlisted peers to broadcast the same subcommittee at the same index.
use crate::index::Index;
use crate::keys::{copy_keys, key_views, PublicKey};
use crate::subcommittee::{AegeriSubcommittee, SubcommitteeView};
use crate::transaction_set::lemma_push_contains;
use vstd::prelude::*;

verus! {

/// The senders recorded for `(index, sub)` in `e`: those of the first entry with
/// that index and subcommittee, or none.
pub open spec fn seen_in(e: Seq<(Index, SubcommitteeView, Seq<Seq<u8>>)>, index: Index, sub: SubcommitteeView) -> Seq<Seq<u8>>
    decreases e.len(),
{
    if e.len() == 0 {
        Seq::empty()
    } else if e[0].0 == index && e[0].1 == sub {
        e[0].2
    } else {
        seen_in(e.drop_first(), index, sub)
    }
}

/// The position of the first entry of `e` with that index and subcommittee, or
/// `e.len()`.
pub open spec fn entry_of(e: Seq<(Index, SubcommitteeView, Seq<Seq<u8>>)>, index: Index, sub: SubcommitteeView) -> int
    decreases e.len(),
{
    if e.len() == 0 {
        0
    } else if e[0].0 == index && e[0].1 == sub {
        0
    } else {
        1 + entry_of(e.drop_first(), index, sub)
    }
}

proof fn lemma_entry_of(e: Seq<(Index, SubcommitteeView, Seq<Seq<u8>>)>, index: Index, sub: SubcommitteeView)
    ensures
        0 <= entry_of(e, index, sub) <= e.len(),
        forall|k: int| 0 <= k < entry_of(e, index, sub) ==> !(#[trigger] e[k].0 == index && e[k].1 == sub),
        entry_of(e, index, sub) < e.len() ==> e[entry_of(e, index, sub)].0 == index && e[entry_of(e, index, sub)].1
            == sub && seen_in(e, index, sub) == e[entry_of(e, index, sub)].2,
        entry_of(e, index, sub) == e.len() ==> seen_in(e, index, sub) == Seq::<Seq<u8>>::empty(),
    decreases e.len(),
{
    if e.len() > 0 && !(e[0].0 == index && e[0].1 == sub) {
        lemma_entry_of(e.drop_first(), index, sub);
        assert forall|k: int| 0 <= k < entry_of(e, index, sub) implies !(#[trigger] e[k].0 == index && e[k].1 == sub) by {
            if k > 0 {
                assert(e[k] == e.drop_first()[k - 1]);
            }
        }
    }
}

/// Changing the entry at the first position of `(index, sub)`, keeping its key,
/// or appending an entry for a key that has none, changes what is seen for that
/// key only.
proof fn lemma_seen_after(
    e: Seq<(Index, SubcommitteeView, Seq<Seq<u8>>)>,
    f: Seq<(Index, SubcommitteeView, Seq<Seq<u8>>)>,
    index: Index,
    sub: SubcommitteeView,
    senders: Seq<Seq<u8>>,
)
    requires
        ({
            let p = entry_of(e, index, sub);
            if p < e.len() {
                f == e.update(p, (index, sub, senders))
            } else {
                f == e.push((index, sub, senders))
            }
        }),
    ensures
        seen_in(f, index, sub) == senders,
        forall|i: Index, s: SubcommitteeView| !(i == index && s == sub) ==> #[trigger] seen_in(f, i, s) == seen_in(e, i, s),
    decreases e.len(),
{
    lemma_entry_of(e, index, sub);
    if e.len() == 0 {
        assert(f.drop_first() =~= Seq::<(Index, SubcommitteeView, Seq<Seq<u8>>)>::empty());
        assert forall|i: Index, s: SubcommitteeView| !(i == index && s == sub) implies #[trigger] seen_in(f, i, s)
            == seen_in(e, i, s) by {
            assert(seen_in(f, i, s) == seen_in(f.drop_first(), i, s));
        }
    } else if e[0].0 == index && e[0].1 == sub {
        assert(f.drop_first() =~= e.drop_first());
        assert forall|i: Index, s: SubcommitteeView| !(i == index && s == sub) implies #[trigger] seen_in(f, i, s)
            == seen_in(e, i, s) by {
            assert(seen_in(f, i, s) == seen_in(f.drop_first(), i, s));
            assert(seen_in(e, i, s) == seen_in(e.drop_first(), i, s));
        }
    } else {
        let p = entry_of(e, index, sub);
        if p < e.len() {
            assert(f.drop_first() =~= e.drop_first().update(p - 1, (index, sub, senders)));
        } else {
            assert(f.drop_first() =~= e.drop_first().push((index, sub, senders)));
        }
        assert(f[0] == e[0]);
        lemma_seen_after(e.drop_first(), f.drop_first(), index, sub, senders);
        assert forall|i: Index, s: SubcommitteeView| !(i == index && s == sub) implies #[trigger] seen_in(f, i, s)
            == seen_in(e, i, s) by {
            assert(seen_in(f.drop_first(), i, s) == seen_in(e.drop_first(), i, s));
        }
    }
}

/// The view of a bootstrap gate.
pub ghost struct BootstrapView {
    /// Whether the node has bootstrapped.
    pub bootstrapped: bool,
    /// How many distinct allowlisted peers must broadcast the same subcommittee.
    pub peer_count_required: usize,
    /// The allowlisted peers.
    pub peers: Set<Seq<u8>>,
    /// The broadcast records, by index and subcommittee, first record first.
    pub counts: Seq<(Index, SubcommitteeView, Seq<Seq<u8>>)>,
}

/// The bootstrap gate of a node.
#[derive(Debug)]
pub struct Bootstrap {
    bootstrapped: bool,
    peer_count_required: usize,
    bootstrap_peers: Vec<PublicKey>,
    counts: Vec<(Index, AegeriSubcommittee, Vec<PublicKey>)>,
}

impl View for Bootstrap {
    type V = BootstrapView;

    closed spec fn view(&self) -> BootstrapView {
        BootstrapView {
            bootstrapped: self.bootstrapped,
            peer_count_required: self.peer_count_required,
            peers: key_views(self.bootstrap_peers@).to_set(),
            counts: self.counts@.map_values(
                |c: (Index, AegeriSubcommittee, Vec<PublicKey>)| (c.0, c.1@, key_views(c.2@)),
            ),
        }
    }
}

/// Whether `keys` holds a key with the view `k`.
fn holds_key(keys: &Vec<PublicKey>, k: &PublicKey) -> (r: bool)
    ensures
        r == key_views(keys@).contains(k@),
{
    let mut i: usize = 0;
    while i < keys.len()
        invariant
            i <= keys@.len(),
            forall|j: int| 0 <= j < i ==> (#[trigger] keys@[j])@ != k@,
        decreases keys@.len() - i,
    {
        if keys[i].same_as(k) {
            assert(key_views(keys@)[i as int] == k@);
            return true;
        }
        i = i + 1;
    }
    proof {
        if key_views(keys@).contains(k@) {
            let j = choose|j: int| 0 <= j < key_views(keys@).len() && key_views(keys@)[j] == k@;
            assert(keys@[j]@ == k@);
        }
    }
    false
}

impl Bootstrap {
    /// By default, the node is assumed to have bootstrapped already, with no peer
    /// required and none allowlisted.
    pub fn new() -> (r: Self)
        ensures
            r@.bootstrapped,
            r@.peer_count_required == 0,
            r@.peers == Set::<Seq<u8>>::empty(),
            r@.counts.len() == 0,
    {
        let r = Bootstrap {
            bootstrapped: true,
            peer_count_required: 0,
            bootstrap_peers: Vec::new(),
            counts: Vec::new(),
        };
        assert(r@.peers =~= Set::<Seq<u8>>::empty());
        r
    }

    pub fn with_bootstrapped(self, has_bootstrapped: bool) -> (r: Self)
        ensures
            r@ == (BootstrapView { bootstrapped: has_bootstrapped, ..self@ }),
    {
        let mut r = self;
        r.bootstrapped = has_bootstrapped;
        r
    }

    pub fn with_peer_count_required(self, peer_count_required: usize) -> (r: Self)
        ensures
            r@ == (BootstrapView { peer_count_required, ..self@ }),
    {
        let mut r = self;
        r.peer_count_required = peer_count_required;
        r
    }

    pub fn has_bootstrapped(&self) -> (r: bool)
        ensures
            r == self@.bootstrapped,
    {
        self.bootstrapped
    }

    pub fn contains_peer(&self, peer: &PublicKey) -> (r: bool)
        ensures
            r == self@.peers.contains(peer@),
    {
        holds_key(&self.bootstrap_peers, peer)
    }

    /// Allowlists `peer`.
    pub fn add_peer(&mut self, peer: PublicKey)
        ensures
            final(self)@ == (BootstrapView { peers: old(self)@.peers.insert(peer@), ..old(self)@ }),
    {
        if !holds_key(&self.bootstrap_peers, &peer) {
            let ghost before = self.bootstrap_peers@;
            self.bootstrap_peers.push(peer);
            proof {
                let y = self.bootstrap_peers@.last()@;
                assert(key_views(self.bootstrap_peers@) =~= key_views(before).push(y));
                assert forall|x: Seq<u8>| key_views(before).push(y).contains(x) <==> (key_views(before).contains(x) || x == y) by {
                    lemma_push_contains(key_views(before), y, x);
                }
                assert(key_views(self.bootstrap_peers@).to_set() =~= key_views(before).to_set().insert(y));
            }
        } else {
            proof {
                assert(key_views(self.bootstrap_peers@).to_set() =~= key_views(self.bootstrap_peers@).to_set().insert(peer@));
            }
        }
    }

    /// Removes `peer` from the allowlist.
    pub fn remove_peer(&mut self, peer: PublicKey)
        ensures
            final(self)@ == (BootstrapView { peers: old(self)@.peers.remove(peer@), ..old(self)@ }),
    {
        let ghost before = key_views(self.bootstrap_peers@);
        let mut kept: Vec<PublicKey> = Vec::new();
        let mut i: usize = 0;
        while i < self.bootstrap_peers.len()
            invariant
                i <= self.bootstrap_peers@.len(),
                before == key_views(self.bootstrap_peers@),
                forall|x: Seq<u8>| key_views(kept@).contains(x) <==> (x != peer@ && key_views(self.bootstrap_peers@).take(i as int).contains(x)),
            decreases self.bootstrap_peers@.len() - i,
        {
            let ghost prev = kept@;
            let ghost t = key_views(self.bootstrap_peers@).take(i as int);
            proof {
                assert(key_views(self.bootstrap_peers@).take(i + 1) =~= t.push(self.bootstrap_peers@[i as int]@));
            }
            if !self.bootstrap_peers[i].same_as(&peer) {
                kept.push(self.bootstrap_peers[i].clone());
                proof {
                    assert(key_views(kept@) =~= key_views(prev).push(self.bootstrap_peers@[i as int]@));
                }
            }
            proof {
                assert forall|x: Seq<u8>| key_views(kept@).contains(x) <==> (x != peer@ && key_views(self.bootstrap_peers@).take(i + 1).contains(x)) by {
                    let y = self.bootstrap_peers@[i as int]@;
                    if t.push(y).contains(x) && x != y {
                        let q = choose|q: int| 0 <= q < t.len() + 1 && t.push(y)[q] == x;
                        assert(t[q] == x);
                    }
                    if t.contains(x) {
                        let q = choose|q: int| 0 <= q < t.len() && t[q] == x;
                        assert(t.push(y)[q] == x);
                    }
                    if x == y {
                        assert(t.push(y)[t.len() as int] == x);
                    }
                    if key_views(kept@).contains(x) && key_views(kept@) != key_views(prev) {
                        let q = choose|q: int| 0 <= q < key_views(kept@).len() && key_views(kept@)[q] == x;
                        if q < key_views(prev).len() {
                            assert(key_views(prev)[q] == x);
                        }
                    }
                    if key_views(prev).contains(x) && key_views(kept@) != key_views(prev) {
                        let q = choose|q: int| 0 <= q < key_views(prev).len() && key_views(prev)[q] == x;
                        assert(key_views(kept@)[q] == x);
                    }
                    if x == y && x != peer@ {
                        assert(key_views(kept@)[key_views(kept@).len() - 1] == x);
                    }
                }
            }
            i = i + 1;
        }
        proof {
            assert(key_views(self.bootstrap_peers@).take(i as int) =~= key_views(self.bootstrap_peers@));
            assert(key_views(kept@).to_set() =~= before.to_set().remove(peer@));
        }
        self.bootstrap_peers = kept;
    }

    /// Allowlists each of `bootstrap_peers`.
    pub fn with_bootstrap_peers(self, bootstrap_peers: Vec<PublicKey>) -> (r: Self)
        ensures
            r@ == (BootstrapView { peers: self@.peers + key_views(bootstrap_peers@).to_set(), ..self@ }),
    {
        let mut r = self;
        let ghost start = r@;
        let mut i: usize = 0;
        proof {
            assert(key_views(bootstrap_peers@.take(0)).to_set() =~= Set::<Seq<u8>>::empty());
            assert(start.peers + Set::<Seq<u8>>::empty() =~= start.peers);
        }
        while i < bootstrap_peers.len()
            invariant
                i <= bootstrap_peers@.len(),
                r@ == (BootstrapView { peers: start.peers + key_views(bootstrap_peers@.take(i as int)).to_set(), ..start }),
            decreases bootstrap_peers@.len() - i,
        {
            r.add_peer(bootstrap_peers[i].clone());
            proof {
                let t = key_views(bootstrap_peers@.take(i as int));
                let y = bootstrap_peers@[i as int]@;
                assert(key_views(bootstrap_peers@.take(i + 1)) =~= t.push(y));
                assert forall|x: Seq<u8>| t.push(y).contains(x) <==> (t.contains(x) || x == y) by {
                    lemma_push_contains(t, y, x);
                }
                let u = key_views(bootstrap_peers@.take(i + 1));
                assert forall|x: Seq<u8>| (start.peers + u.to_set()).contains(x) <==> (start.peers + t.to_set()).insert(y).contains(x) by {
                    assert(u.to_set().contains(x) <==> u.contains(x));
                    assert(t.to_set().contains(x) <==> t.contains(x));
                }
                assert(start.peers + u.to_set() =~= (start.peers + t.to_set()).insert(y));
            }
            i = i + 1;
        }
        proof {
            assert(bootstrap_peers@.take(i as int) =~= bootstrap_peers@);
        }
        r
    }

    /// Records that the allowlisted `sender` broadcast `subcommittee` at `index`,
    /// while the node has not bootstrapped. Once `peer_count_required` distinct
    /// peers have broadcast the same subcommittee at the same index, the node has
    /// bootstrapped, and that index and subcommittee are returned as the agreement
    /// to start from. A broadcast from a peer off the allowlist, or after
    /// bootstrap, changes nothing.
    pub fn observe_broadcast(&mut self, index: Index, subcommittee: &AegeriSubcommittee, sender: &PublicKey) -> (r:
        Option<(Index, AegeriSubcommittee)>)
        ensures
            ({
                let v = old(self)@;
                if v.bootstrapped || !v.peers.contains(sender@) {
                    r is None && final(self)@ == v
                } else {
                    let before = seen_in(v.counts, index, subcommittee@);
                    let after = if before.contains(sender@) { before } else { before.push(sender@) };
                    let w = final(self)@;
                    &&& w.peers == v.peers
                    &&& w.peer_count_required == v.peer_count_required
                    &&& seen_in(w.counts, index, subcommittee@) == after
                    &&& forall|i: Index, s: SubcommitteeView|
                        !(i == index && s == subcommittee@) ==> #[trigger] seen_in(w.counts, i, s) == seen_in(v.counts, i, s)
                    &&& if after.len() >= v.peer_count_required {
                        w.bootstrapped && (r matches Some((ri, rs)) && ri == index && rs@ == subcommittee@)
                    } else {
                        !w.bootstrapped && r is None
                    }
                }
            }),
    {
        if self.bootstrapped || !holds_key(&self.bootstrap_peers, sender) {
            return None;
        }
        let ghost e = self@.counts;
        proof {
            lemma_entry_of(e, index, subcommittee@);
        }
        let mut p: usize = 0;
        while p < self.counts.len() && !(self.counts[p].0 == index && self.counts[p].1.same_as(subcommittee))
            invariant
                p <= self.counts@.len(),
                e == self@.counts,
                forall|k: int| 0 <= k < p ==> !(#[trigger] e[k].0 == index && e[k].1 == subcommittee@),
            decreases self.counts@.len() - p,
        {
            p = p + 1;
        }
        proof {
            let q = entry_of(e, index, subcommittee@);
            if p < e.len() {
                assert(e[p as int].0 == index && e[p as int].1 == subcommittee@);
            }
            if q < e.len() {
                assert(e[q].0 == index && e[q].1 == subcommittee@);
            }
            assert(q == p);
        }
        let senders: Vec<PublicKey>;
        let mut counts: Vec<(Index, AegeriSubcommittee, Vec<PublicKey>)> = Vec::new();
        std::mem::swap(&mut counts, &mut self.counts);
        if p < counts.len() {
            let (ci, cs, mut cv) = counts.remove(p);
            if !holds_key(&cv, sender) {
                let ghost prev = cv@;
                cv.push(sender.clone());
                proof {
                    assert(key_views(cv@) =~= key_views(prev).push(sender@));
                }
            }
            senders = copy_keys(&cv);
            counts.insert(p, (ci, cs, cv));
            proof {
                assert(counts@.map_values(|c: (Index, AegeriSubcommittee, Vec<PublicKey>)| (c.0, c.1@, key_views(c.2@)))
                    =~= e.update(p as int, (index, subcommittee@, key_views(senders@))));
            }
        } else {
            let mut cv: Vec<PublicKey> = Vec::new();
            cv.push(sender.clone());
            proof {
                assert(key_views(cv@) =~= Seq::<Seq<u8>>::empty().push(sender@));
            }
            senders = copy_keys(&cv);
            counts.push((index, subcommittee.clone(), cv));
            proof {
                assert(counts@.map_values(|c: (Index, AegeriSubcommittee, Vec<PublicKey>)| (c.0, c.1@, key_views(c.2@)))
                    =~= e.push((index, subcommittee@, key_views(senders@))));
            }
        }
        self.counts = counts;
        proof {
            lemma_seen_after(e, self@.counts, index, subcommittee@, key_views(senders@));
        }
        if senders.len() >= self.peer_count_required {
            self.bootstrapped = true;
            Some((index, subcommittee.clone()))
        } else {
            None
        }
    }
}

} // verus!
