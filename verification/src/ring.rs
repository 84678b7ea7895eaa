//! The ring: registration of backends, finalization, and lookup.

use crate::digest::{round_words, vnode_hashes};
use crate::hash::{bkdr, bkdr_spec};
use vstd::prelude::*;
use vstd::relations::{sorted_by, total_ordering};
use vstd::seq_lib::{group_to_multiset_ensures, lemma_sorted_unique};
use vstd::string::StringSliceAdditionalSpecFns;

verus! {

/// Number of ring positions that one digest yields.
pub const PER_HASH: usize = 4;

/// One entry of the ring: a position and the backend that owns it. The
/// backend is named by its index in the ring's table of registered values, so
/// that all the virtual nodes of a backend share one stored value.
#[derive(Clone, Copy, Debug)]
pub struct Vnode {
    pub hash: u32,
    pub slot: usize,
}

/// The order in which a built ring holds its entries: by position, and among
/// equal positions by order of registration.
pub open spec fn vnode_leq(a: Vnode, b: Vnode) -> bool {
    a.hash < b.hash || (a.hash == b.hash && a.slot <= b.slot)
}

/// [`vnode_leq`] as a relation.
pub open spec fn ring_order() -> spec_fn(Vnode, Vnode) -> bool {
    |a: Vnode, b: Vnode| vnode_leq(a, b)
}

/// The number of digest rounds for a requested weight: the weight divided by
/// four, rounded up.
pub open spec fn rounds_for(spot: nat) -> nat {
    (spot + 3) / 4
}

/// The entries that one round of a backend contributes, in digest order.
pub open spec fn round_nodes(key: Seq<u8>, slot: usize, round: nat) -> Seq<Vnode> {
    round_words(key, round).map_values(|h: u32| Vnode { hash: h, slot })
}

/// The entries that the first `rounds` rounds of a backend contribute.
pub open spec fn backend_nodes(key: Seq<u8>, slot: usize, rounds: nat) -> Seq<Vnode>
    decreases rounds,
{
    if rounds == 0 {
        Seq::empty()
    } else {
        backend_nodes(key, slot, (rounds - 1) as nat) + round_nodes(
            key,
            slot,
            (rounds - 1) as nat,
        )
    }
}

/// What a ring holds: the registered values in order of registration, and
/// the entries in ring order.
pub struct RingModel {
    pub values: Seq<Seq<char>>,
    pub nodes: Seq<Vnode>,
}

impl RingModel {
    /// The ring with no backend.
    pub open spec fn empty() -> RingModel {
        RingModel { values: Seq::empty(), nodes: Seq::empty() }
    }

    /// The positions of the entries, in the order in which the ring holds them.
    pub open spec fn positions(self) -> Seq<u32> {
        self.nodes.map_values(|n: Vnode| n.hash)
    }

    /// Every entry names a registered value.
    pub open spec fn wf(self) -> bool {
        forall|i: int| 0 <= i < self.nodes.len() ==> (#[trigger] self.nodes[i]).slot < self.values.len()
    }

    /// The entries are in ascending order of position: the state in which
    /// lookups follow the ring.
    pub open spec fn is_built(self) -> bool {
        forall|i: int, j: int|
            0 <= i <= j < self.nodes.len() ==> (#[trigger] self.nodes[i]).hash <= (
            #[trigger] self.nodes[j]).hash
    }

    /// The ring after registering `val` under the hashing key `key` with
    /// weight `spot`: the value joins the table, and its entries are appended.
    pub open spec fn after_add(self, key: Seq<u8>, val: Seq<char>, spot: nat) -> RingModel {
        RingModel {
            values: self.values.push(val),
            nodes: self.nodes + backend_nodes(key, self.values.len() as usize, rounds_for(spot)),
        }
    }

    /// The ring after finalization: the same entries, sorted by [`vnode_leq`].
    pub open spec fn after_build(self) -> RingModel {
        RingModel { values: self.values, nodes: self.nodes.sort_by(ring_order()) }
    }

    /// `i` is the index of the first entry at or after `target`, or the
    /// number of entries if there is none.
    pub open spec fn first_at_or_after(self, target: u32, i: int) -> bool {
        &&& 0 <= i <= self.nodes.len()
        &&& forall|j: int| 0 <= j < i ==> (#[trigger] self.nodes[j]).hash < target
        &&& i < self.nodes.len() ==> self.nodes[i].hash >= target
    }

    /// The index of the entry that answers for `target`: the first entry at
    /// or after it, or the first entry of the ring if there is none.
    pub open spec fn successor(self, target: u32) -> int {
        let i = choose|i: int| self.first_at_or_after(target, i);
        if i < self.nodes.len() {
            i
        } else {
            0
        }
    }

    /// The value that answers for `target`, if the ring has any entry.
    pub open spec fn lookup(self, target: u32) -> Option<Seq<char>> {
        if self.nodes.len() == 0 {
            None
        } else {
            Some(self.values[self.nodes[self.successor(target)].slot as int])
        }
    }

    /// Where a halving search for `target` between `lo` and `hi` ends: it
    /// looks at the entry in the middle, goes on above it if that entry lies
    /// before `target` and below it otherwise, and stops when nothing is left.
    pub open spec fn probe(self, target: u32, lo: int, hi: int) -> int
        decreases hi - lo,
    {
        if lo >= hi {
            lo
        } else {
            let mid = lo + (hi - lo) / 2;
            if self.nodes[mid].hash < target {
                self.probe(target, mid + 1, hi)
            } else {
                self.probe(target, lo, mid)
            }
        }
    }

    /// The index of the entry that a halving search over the whole ring ends
    /// at, or 0 if it ends past the last entry.
    pub open spec fn probed(self, target: u32) -> int {
        let i = self.probe(target, 0, self.nodes.len() as int);
        if i < self.nodes.len() {
            i
        } else {
            0
        }
    }

    /// The value that a halving search for `target` finds, whatever the order
    /// of the entries. On a built ring it is [`RingModel::lookup`].
    pub open spec fn search(self, target: u32) -> Option<Seq<char>> {
        if self.nodes.len() == 0 {
            None
        } else {
            Some(self.values[self.nodes[self.probed(target)].slot as int])
        }
    }

    /// The number of entries that belong to the backend registered as `slot`.
    pub open spec fn slot_count(self, slot: usize) -> nat {
        self.nodes.to_multiset().filter(|n: Vnode| n.slot == slot).len()
    }
}

/// The view of an optional string slice.
pub open spec fn answer(r: Option<&str>) -> Option<Seq<char>> {
    match r {
        Some(s) => Some(s@),
        None => None,
    }
}

/// The consistent-hashing ring.
pub struct Ketama {
    values: Vec<String>,
    nodes: Vec<Vnode>,
}

impl View for Ketama {
    type V = RingModel;

    closed spec fn view(&self) -> RingModel {
        RingModel { values: self.values@.map_values(|s: String| s@), nodes: self.nodes@ }
    }
}

/// The pair by which entries are sorted.
fn sort_key(n: &Vnode) -> (k: (u32, usize))
    ensures
        k == (n.hash, n.slot),
{
    (n.hash, n.slot)
}

/// Calls `sort_by_key` of std's slices with [`sort_key`]. Trusted: afterwards
/// the vector holds the same entries as before, each as often as before, in
/// ascending order of their keys, where pairs compare lexicographically.
#[verifier::external_body]
fn sort_nodes(nodes: &mut Vec<Vnode>)
    ensures
        final(nodes)@.to_multiset() == old(nodes)@.to_multiset(),
        sorted_by(final(nodes)@, ring_order()),
{
    nodes.sort_by_key(|n| sort_key(n));
}

/// [`vnode_leq`] is a total order on entries.
pub proof fn lemma_ring_order_total()
    ensures
        total_ordering(ring_order()),
{
}

/// Finalization keeps a well-formed ring well-formed and leaves it built.
pub proof fn lemma_after_build(m: RingModel)
    requires
        m.wf(),
    ensures
        m.after_build().wf(),
        m.after_build().is_built(),
        m.after_build().nodes.to_multiset() == m.nodes.to_multiset(),
        m.after_build().nodes.len() == m.nodes.len(),
        sorted_by(m.after_build().nodes, ring_order()),
{
    broadcast use group_to_multiset_ensures;

    lemma_ring_order_total();
    m.nodes.lemma_sort_by_ensures(ring_order());
    let s = m.nodes.sort_by(ring_order());
    assert(s.len() == s.to_multiset().len());
    assert(m.nodes.len() == m.nodes.to_multiset().len());
    assert forall|i: int| 0 <= i < s.len() implies (#[trigger] s[i]).slot < m.values.len() by {
        assert(s.contains(s[i]));
        assert(m.nodes.contains(s[i]));
    }
    assert forall|i: int, j: int| 0 <= i <= j < s.len() implies s[i].hash <= s[j].hash by {
        if i < j {
            assert(ring_order()(s[i], s[j]));
        }
    }
}

impl Ketama {
    /// Creates an empty ring with room for `capacity` entries.
    pub fn new(capacity: usize) -> (ring: Ketama)
        ensures
            ring@ == RingModel::empty(),
            ring@.wf(),
    {
        let ring = Ketama { values: Vec::new(), nodes: Vec::with_capacity(capacity) };
        proof {
            assert(ring@.values =~= Seq::empty());
            assert(ring@.nodes =~= Seq::empty());
        }
        ring
    }

    /// The number of entries on the ring.
    pub fn len(&self) -> (n: usize)
        ensures
            n == self@.nodes.len(),
    {
        self.nodes.len()
    }

    /// The positions of the entries, in the order in which the ring holds them.
    pub fn positions(&self) -> (out: Vec<u32>)
        ensures
            out@ == self@.positions(),
    {
        let mut out: Vec<u32> = Vec::with_capacity(self.nodes.len());
        let mut i: usize = 0;
        while i < self.nodes.len()
            invariant
                i <= self.nodes.len(),
                out@ == self.nodes@.take(i as int).map_values(|n: Vnode| n.hash),
            decreases self.nodes.len() - i,
        {
            out.push(self.nodes[i].hash);
            proof {
                assert(out@ =~= self.nodes@.take(i + 1).map_values(|n: Vnode| n.hash));
            }
            i += 1;
        }
        proof {
            assert(self.nodes@.take(i as int) =~= self.nodes@);
        }
        out
    }

    /// Registers the backend `val` with weight `spot`, hashing it under its
    /// own name. The ring has to be built again before the next lookup.
    pub fn add(&mut self, val: &str, spot: usize)
        requires
            old(self)@.wf(),
        ensures
            final(self)@ == old(self)@.after_add(val.spec_bytes(), val@, spot as nat),
            final(self)@.wf(),
            final(self)@.nodes.len() == old(self)@.nodes.len() + 4 * rounds_for(spot as nat),
    {
        self.add_keyed(val, val, spot)
    }

    /// Registers the backend `val` with weight `spot`, hashing it under `key`:
    /// round `r` digests the bytes of `key`, a `+`, and `r` in decimal.
    pub fn add_keyed(&mut self, key: &str, val: &str, spot: usize)
        requires
            old(self)@.wf(),
        ensures
            final(self)@ == old(self)@.after_add(key.spec_bytes(), val@, spot as nat),
            final(self)@.wf(),
            final(self)@.nodes.len() == old(self)@.nodes.len() + 4 * rounds_for(spot as nat),
    {
        let rounds: usize = spot / PER_HASH + if spot % PER_HASH == 0 { 0 } else { 1 };
        let slot: usize = self.values.len();
        let key_bytes = key.as_bytes();
        let ghost before = self@;
        self.values.push(val.to_owned());
        let ghost values = self@.values;
        proof {
            assert(values =~= before.values.push(val@));
        }
        let mut round: usize = 0;
        while round < rounds
            invariant
                round <= rounds,
                self@.values == values,
                self.nodes@ == before.nodes + backend_nodes(key_bytes@, slot, round as nat),
            decreases rounds - round,
        {
            let words = vnode_hashes(key_bytes, round);
            let ghost start = self.nodes@;
            self.nodes.push(Vnode { hash: words[0], slot });
            self.nodes.push(Vnode { hash: words[1], slot });
            self.nodes.push(Vnode { hash: words[2], slot });
            self.nodes.push(Vnode { hash: words[3], slot });
            proof {
                assert(self.nodes@ =~= start + round_nodes(key_bytes@, slot, round as nat));
                assert(self.nodes@ =~= before.nodes + backend_nodes(
                    key_bytes@,
                    slot,
                    (round + 1) as nat,
                ));
            }
            round += 1;
        }
        proof {
            assert(rounds as nat == rounds_for(spot as nat));
            lemma_backend_nodes(key_bytes@, slot, rounds as nat);
        }
    }

    /// Finalizes the ring: sorts its entries by position, ties by order of
    /// registration.
    pub fn build(&mut self)
        requires
            old(self)@.wf(),
        ensures
            final(self)@ == old(self)@.after_build(),
            final(self)@.wf(),
            final(self)@.is_built(),
            final(self)@.nodes.to_multiset() == old(self)@.nodes.to_multiset(),
            final(self)@.nodes.len() == old(self)@.nodes.len(),
    {
        let ghost before = self@;
        sort_nodes(&mut self.nodes);
        proof {
            lemma_ring_order_total();
            lemma_after_build(before);
            lemma_sorted_unique(self.nodes@, before.after_build().nodes, ring_order());
        }
    }

    /// Resolves a ring position to a backend by a halving search over the
    /// entries. An empty ring answers `None`. On a built ring the answer is the
    /// value of the first entry at or after `key`, or of the first entry of the
    /// ring where `key` lies past the last.
    pub fn query_u32(&self, key: u32) -> (r: Option<&str>)
        requires
            self@.wf(),
        ensures
            answer(r) == self@.search(key),
            self@.is_built() ==> answer(r) == self@.lookup(key),
            r is None <==> self@.nodes.len() == 0,
    {
        let n: usize = self.nodes.len();
        if n == 0 {
            return None;
        }
        let mut lo: usize = 0;
        let mut hi: usize = n;
        while lo < hi
            invariant
                lo <= hi <= n,
                n == self.nodes.len(),
                self@.nodes == self.nodes@,
                self@.probe(key, lo as int, hi as int) == self@.probe(key, 0, n as int),
                self@.is_built() ==> forall|j: int|
                    0 <= j < lo ==> (#[trigger] self.nodes[j]).hash < key,
                self@.is_built() ==> forall|j: int|
                    hi <= j < n ==> (#[trigger] self.nodes[j]).hash >= key,
            decreases hi - lo,
        {
            let mid: usize = lo + (hi - lo) / 2;
            if self.nodes[mid].hash < key {
                lo = mid + 1;
            } else {
                hi = mid;
            }
        }
        let idx: usize = if lo < n { lo } else { 0 };
        let node = self.nodes[idx];
        let r = Some(self.values[node.slot].as_str());
        proof {
            assert(self@.nodes[idx as int] == node);
            assert(self@.probed(key) == idx);
            if self@.is_built() {
                assert(self@.first_at_or_after(key, lo as int));
                let c = choose|i: int| self@.first_at_or_after(key, i);
                assert(self@.first_at_or_after(key, c));
                assert(c == lo);
            }
        }
        r
    }

    /// Resolves a key to a backend: [`Ketama::query_u32`] at the rolling hash
    /// of the key's bytes.
    pub fn query(&self, key: &str) -> (r: Option<&str>)
        requires
            self@.wf(),
        ensures
            answer(r) == self@.search(bkdr_spec(key.spec_bytes())),
            self@.is_built() ==> answer(r) == self@.lookup(bkdr_spec(key.spec_bytes())),
            r is None <==> self@.nodes.len() == 0,
    {
        self.query_u32(bkdr(key.as_bytes()))
    }
}

/// Every entry of a backend carries the backend's slot, and each round
/// contributes four entries.
pub proof fn lemma_backend_nodes(key: Seq<u8>, slot: usize, rounds: nat)
    ensures
        backend_nodes(key, slot, rounds).len() == 4 * rounds,
        forall|i: int|
            0 <= i < backend_nodes(key, slot, rounds).len() ==> (#[trigger] backend_nodes(
                key,
                slot,
                rounds,
            )[i]).slot == slot,
    decreases rounds,
{
    if rounds > 0 {
        lemma_backend_nodes(key, slot, (rounds - 1) as nat);
    }
}

} // verus!
