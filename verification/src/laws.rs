//! Theorems about the ring, stated over its model.

use crate::ring::{backend_nodes, lemma_after_build, lemma_backend_nodes, lemma_ring_order_total};
use crate::ring::{ring_order, rounds_for, RingModel, Vnode};
use vstd::multiset::group_multiset_axioms;
use vstd::prelude::*;
use vstd::relations::sorted_by;
use vstd::seq_lib::{group_to_multiset_ensures, lemma_multiset_commutative, lemma_sorted_unique};

verus! {

/// One call of `add`: the hashing key, the value, and the weight.
pub struct Registration {
    pub key: Seq<u8>,
    pub val: Seq<char>,
    pub spot: nat,
}

/// The ring that results from the registrations `regs`, made in order on an
/// empty ring, before it is built.
pub open spec fn registered(regs: Seq<Registration>) -> RingModel
    decreases regs.len(),
{
    if regs.len() == 0 {
        RingModel::empty()
    } else {
        registered(regs.drop_last()).after_add(regs.last().key, regs.last().val, regs.last().spot)
    }
}

/// From any index up to which every entry lies before `target`, a first
/// entry at or after `target` (or the end of the ring) can be found.
proof fn lemma_first_exists(m: RingModel, target: u32, k: int) -> (i: int)
    requires
        0 <= k <= m.nodes.len(),
        forall|j: int| 0 <= j < k ==> (#[trigger] m.nodes[j]).hash < target,
    ensures
        m.first_at_or_after(target, i),
    decreases m.nodes.len() - k,
{
    if k == m.nodes.len() || m.nodes[k].hash >= target {
        k
    } else {
        lemma_first_exists(m, target, k + 1)
    }
}

/// On a built ring with entries, the entry that answers for `target` is the
/// first whose position is at or after `target`, and no entry at or after
/// `target` has a smaller position. Where every entry lies before `target`,
/// the first entry of the ring answers, and no entry has a smaller position.
pub proof fn lemma_lookup_nearest(m: RingModel, target: u32)
    requires
        m.is_built(),
        m.nodes.len() > 0,
    ensures
        0 <= m.successor(target) < m.nodes.len(),
        m.lookup(target) == Some(m.values[m.nodes[m.successor(target)].slot as int]),
        forall|j: int|
            0 <= j < m.nodes.len() && (#[trigger] m.nodes[j]).hash >= target ==> target
                <= m.nodes[m.successor(target)].hash <= m.nodes[j].hash,
        forall|j: int|
            0 <= j < m.successor(target) ==> (#[trigger] m.nodes[j]).hash < target,
        (forall|j: int| 0 <= j < m.nodes.len() ==> (#[trigger] m.nodes[j]).hash < target)
            ==> m.successor(target) == 0 && forall|j: int|
            0 <= j < m.nodes.len() ==> m.nodes[0].hash <= (#[trigger] m.nodes[j]).hash,
{
    let w = lemma_first_exists(m, target, 0);
    let c = choose|i: int| m.first_at_or_after(target, i);
    assert(m.first_at_or_after(target, c));
    let s = m.successor(target);
    assert forall|j: int| 0 <= j < m.nodes.len() && (#[trigger] m.nodes[j]).hash >= target implies target
        <= m.nodes[s].hash <= m.nodes[j].hash by {
        assert(c <= j);
    }
}

/// On a built ring the halving search ends at the first entry at or after
/// `target`, so that it finds what [`RingModel::lookup`] names.
pub proof fn lemma_search_is_lookup(m: RingModel, target: u32)
    requires
        m.is_built(),
    ensures
        m.search(target) == m.lookup(target),
        m.nodes.len() > 0 ==> m.probed(target) == m.successor(target),
{
    if m.nodes.len() > 0 {
        lemma_probe_first(m, target, 0, m.nodes.len() as int);
        let c = choose|i: int| m.first_at_or_after(target, i);
        assert(m.first_at_or_after(target, c));
    }
}

/// A halving search on a built ring, started on a range that has only
/// earlier entries before it and only entries at or after `target` behind
/// it, ends at the first entry at or after `target`.
proof fn lemma_probe_first(m: RingModel, target: u32, lo: int, hi: int)
    requires
        m.is_built(),
        0 <= lo <= hi <= m.nodes.len(),
        forall|j: int| 0 <= j < lo ==> (#[trigger] m.nodes[j]).hash < target,
        forall|j: int| hi <= j < m.nodes.len() ==> (#[trigger] m.nodes[j]).hash >= target,
    ensures
        m.first_at_or_after(target, m.probe(target, lo, hi)),
    decreases hi - lo,
{
    if lo < hi {
        let mid = lo + (hi - lo) / 2;
        if m.nodes[mid].hash < target {
            lemma_probe_first(m, target, mid + 1, hi);
        } else {
            lemma_probe_first(m, target, lo, mid);
        }
    }
}

/// An empty ring answers no position.
pub proof fn lemma_empty_ring_answers_none(target: u32)
    ensures
        RingModel::empty().lookup(target) is None,
        RingModel::empty().wf(),
        RingModel::empty().is_built(),
{
}

/// Registering a backend with weight `spot` gives it four entries for every
/// started group of four in `spot`, leaves the number of entries of every
/// other backend as it was, and building the ring changes none of these
/// numbers.
pub proof fn lemma_weight_gives_entries(m: RingModel, key: Seq<u8>, val: Seq<char>, spot: nat)
    requires
        m.wf(),
        m.values.len() <= usize::MAX,
    ensures
        m.after_add(key, val, spot).wf(),
        m.after_add(key, val, spot).nodes.len() == m.nodes.len() + 4 * rounds_for(spot),
        m.after_add(key, val, spot).slot_count(m.values.len() as usize) == 4 * rounds_for(spot),
        forall|s: usize|
            s != m.values.len() ==> #[trigger] m.after_add(key, val, spot).slot_count(s)
                == m.slot_count(s),
        forall|s: usize| #[trigger]
            m.after_add(key, val, spot).after_build().slot_count(s) == m.after_add(
                key,
                val,
                spot,
            ).slot_count(s),
{
    broadcast use group_multiset_axioms;
    broadcast use group_to_multiset_ensures;

    let slot = m.values.len() as usize;
    let fresh = backend_nodes(key, slot, rounds_for(spot));
    let after = m.after_add(key, val, spot);
    lemma_backend_nodes(key, slot, rounds_for(spot));
    lemma_multiset_commutative(m.nodes, fresh);
    assert(after.wf());
    lemma_after_build(after);
    let own = |n: Vnode| n.slot == slot;
    assert(after.nodes.to_multiset().filter(own) =~= fresh.to_multiset()) by {
        assert forall|v: Vnode|
            after.nodes.to_multiset().filter(own).count(v) == fresh.to_multiset().count(v) by {
            if own(v) {
                if m.nodes.contains(v) {
                    let i = choose|i: int| 0 <= i < m.nodes.len() && m.nodes[i] == v;
                    assert(m.nodes[i].slot < m.values.len());
                }
            } else {
                if fresh.contains(v) {
                    let i = choose|i: int| 0 <= i < fresh.len() && fresh[i] == v;
                    assert(fresh[i].slot == slot);
                }
            }
        }
    }
    assert forall|s: usize| s != m.values.len() implies #[trigger] after.slot_count(s)
        == m.slot_count(s) by {
        let other = |n: Vnode| n.slot == s;
        assert(after.nodes.to_multiset().filter(other) =~= m.nodes.to_multiset().filter(other)) by {
            assert forall|v: Vnode|
                after.nodes.to_multiset().filter(other).count(v) == m.nodes.to_multiset().filter(
                    other,
                ).count(v) by {
                if fresh.contains(v) {
                    let i = choose|i: int| 0 <= i < fresh.len() && fresh[i] == v;
                    assert(fresh[i].slot == slot);
                }
            }
        }
    }
}

/// Building a built ring again changes nothing: a ring whose entries are in
/// ring order is its own finalization, and so is every finalized ring.
pub proof fn lemma_build_idempotent(m: RingModel)
    requires
        m.wf(),
    ensures
        sorted_by(m.nodes, ring_order()) ==> m.after_build() == m,
        m.after_build().after_build() == m.after_build(),
{
    lemma_ring_order_total();
    lemma_after_build(m);
    lemma_after_build(m.after_build());
    lemma_sorted_unique(m.after_build().after_build().nodes, m.after_build().nodes, ring_order());
    if sorted_by(m.nodes, ring_order()) {
        lemma_sorted_unique(m.after_build().nodes, m.nodes, ring_order());
    }
}

/// Two sequences that hold the same entries, each as often, hold the same
/// positions, each as often.
proof fn lemma_same_entries_same_positions(a: RingModel, b: RingModel)
    requires
        a.nodes.to_multiset() == b.nodes.to_multiset(),
    ensures
        a.positions().to_multiset() == b.positions().to_multiset(),
    decreases a.nodes.len(),
{
    broadcast use group_multiset_axioms;
    broadcast use group_to_multiset_ensures;

    assert(a.nodes.len() == a.nodes.to_multiset().len());
    assert(b.nodes.len() == b.nodes.to_multiset().len());
    if a.nodes.len() == 0 {
        assert(a.positions() =~= b.positions());
    } else {
        let x = a.nodes.last();
        let a1 = RingModel { values: a.values, nodes: a.nodes.drop_last() };
        assert(a.nodes =~= a1.nodes.push(x));
        assert(a.nodes.to_multiset() =~= a1.nodes.to_multiset().insert(x));
        assert(a.nodes.contains(x));
        assert(a.nodes.to_multiset().count(x) > 0);
        assert(b.nodes.to_multiset().count(x) > 0);
        assert(b.nodes.contains(x));
        let k = choose|k: int| 0 <= k < b.nodes.len() && b.nodes[k] == x;
        let b1 = RingModel { values: b.values, nodes: b.nodes.remove(k) };
        assert(b1.nodes.to_multiset() =~= b.nodes.to_multiset().remove(x));
        assert(a1.nodes.to_multiset() =~= b1.nodes.to_multiset());
        lemma_same_entries_same_positions(a1, b1);
        assert(a.positions() =~= a1.positions().push(x.hash));
        assert(a.positions().to_multiset() =~= a1.positions().to_multiset().insert(x.hash));
        assert(b.positions().remove(k) =~= b1.positions());
        assert(b.positions()[k] == x.hash);
        assert(b.positions().remove(k).to_multiset() =~= b.positions().to_multiset().remove(
            x.hash,
        ));
        assert(b.positions().contains(x.hash));
        assert(b.positions().to_multiset() =~= b1.positions().to_multiset().insert(x.hash));
    }
}

/// Building a ring whose entries are already in ascending order of position
/// leaves the sequence of positions as it is.
pub proof fn lemma_build_keeps_positions(m: RingModel)
    requires
        m.wf(),
        m.is_built(),
    ensures
        m.after_build().positions() == m.positions(),
{
    lemma_after_build(m);
    lemma_same_entries_same_positions(m.after_build(), m);
    let leq = |x: u32, y: u32| x <= y;
    let before = m.positions();
    let after = m.after_build().positions();
    assert(sorted_by(before, leq)) by {
        assert forall|i: int, j: int| 0 <= i < j < before.len() implies #[trigger] leq(
            before[i],
            before[j],
        ) by {
            assert(m.nodes[i].hash <= m.nodes[j].hash);
        }
    }
    assert(sorted_by(after, leq)) by {
        assert forall|i: int, j: int| 0 <= i < j < after.len() implies #[trigger] leq(
            after[i],
            after[j],
        ) by {
            assert(m.after_build().nodes[i].hash <= m.after_build().nodes[j].hash);
        }
    }
    lemma_sorted_unique(after, before, leq);
}

/// The ring that a sequence of registrations gives is well-formed.
pub proof fn lemma_registered_wf(regs: Seq<Registration>)
    requires
        regs.len() <= usize::MAX,
    ensures
        registered(regs).wf(),
        registered(regs).values.len() == regs.len(),
    decreases regs.len(),
{
    if regs.len() > 0 {
        lemma_registered_wf(regs.drop_last());
        let last = regs.last();
        lemma_weight_gives_entries(registered(regs.drop_last()), last.key, last.val, last.spot);
    }
}

/// Two rings that were given the same registrations in the same order and
/// were then built hold the same entries in the same order, and answer every
/// position alike.
pub proof fn lemma_same_registrations_same_answers(
    a: RingModel,
    b: RingModel,
    regs: Seq<Registration>,
    target: u32,
)
    requires
        a == registered(regs).after_build(),
        b == registered(regs).after_build(),
    ensures
        a == b,
        a.search(target) == b.search(target),
        a.lookup(target) == b.lookup(target),
{
}

} // verus!
