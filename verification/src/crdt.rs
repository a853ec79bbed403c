//! The conflict-free replicated component store: per component and entity, a
//! last-write-wins register or a grow-only list, with deterministic merge
//! rules that make two replicas converge on the same state regardless of the
//! order in which they receive the same set of updates.
//!
//! One caution about the register rule: a write with a timestamp *equal* to
//! the stored one is accepted, so the last equal-timestamp write in
//! processing order wins.  That keeps a register deterministic for a batch
//! applied once in order, but it is order-dependent: replaying a batch out
//! of order (say after a reconnect) can leave two replicas disagreeing on a
//! tied register.  `lemma_lww_last_write_wins` states the rule exactly.

use vstd::prelude::*;

use crate::entity_id::SceneEntityId;
use crate::kvmap::{KvMap, keys_unique, seq_contains_key, index_of_key, lemma_index_unique};

verus! {

/// One store key names one component of one entity: the component id in the
/// high 32 bits, the packed entity id in the low 32 bits.
pub open spec fn spec_crdt_key(component: u32, e: SceneEntityId) -> u64 {
    (component as int * 0x1_0000_0000 + e.spec_pack() as int) as u64
}

/// The component id a store key names.
pub open spec fn key_component(k: u64) -> u32 {
    (k as int / 0x1_0000_0000) as u32
}

/// The packed entity id a store key names.
pub open spec fn key_entity(k: u64) -> u32 {
    (k as int % 0x1_0000_0000) as u32
}

/// A store key splits back into the component and entity it was built from.
pub proof fn lemma_key_parts(component: u32, e: SceneEntityId)
    ensures
        key_component(spec_crdt_key(component, e)) == component,
        key_entity(spec_crdt_key(component, e)) == e.spec_pack(),
{
    assert(e.spec_pack() < 0x1_0000_0000) by (nonlinear_arith);
    assert((component as int * 0x1_0000_0000 + e.spec_pack() as int) / 0x1_0000_0000 == component as int
        && (component as int * 0x1_0000_0000 + e.spec_pack() as int) % 0x1_0000_0000 == e.spec_pack() as int)
        by (nonlinear_arith)
        requires
            e.spec_pack() < 0x1_0000_0000,
    ;
}

pub fn crdt_key(component: u32, e: SceneEntityId) -> (r: u64)
    ensures
        r == spec_crdt_key(component, e),
{
    (component as u64) * 0x1_0000_0000 + (e.pack() as u64)
}

/// Split a store key back into its component id and entity id.
pub fn key_parts(k: u64) -> (r: (u32, SceneEntityId))
    ensures
        r.0 == key_component(k),
        r.1.spec_pack() == key_entity(k),
        spec_crdt_key(r.0, r.1) == k,
{
    let component = (k / 0x1_0000_0000) as u32;
    let entity = SceneEntityId::unpack((k % 0x1_0000_0000) as u32);
    proof {
        assert(k as int / 0x1_0000_0000 * 0x1_0000_0000 + k as int % 0x1_0000_0000 == k as int)
            by (nonlinear_arith);
    }
    (component, entity)
}

/// Which merge rule a component follows.
#[derive(Clone, Copy, PartialEq, Eq, Structural, Debug)]
pub enum CrdtKind {
    Lww,
    Go,
}

/// A last-write-wins register: the winning timestamp and its value, where
/// `None` is a tombstone (an explicit deletion that can still win or lose
/// against late writes).
pub struct LwwEntry {
    pub timestamp: u64,
    pub value: Option<Vec<u8>>,
}

impl View for LwwEntry {
    type V = (u64, Option<Seq<u8>>);

    open spec fn view(&self) -> (u64, Option<Seq<u8>>) {
        (self.timestamp, self.value.deep_view())
    }
}

/// A grow-only component list: every payload ever appended, plus how many of
/// them have already been handed out by `take_updates`.
pub struct GoList {
    pub items: Vec<Vec<u8>>,
    pub taken: usize,
}

/// Whether an incoming last-write-wins write is accepted against a register
/// state: always on first write, otherwise iff the incoming timestamp is at
/// least the stored one.  Accepting equal timestamps is what makes the last
/// write in processing order win a tie.
pub open spec fn lww_write_accepted(reg: Option<(u64, Option<Seq<u8>>)>, timestamp: u64) -> bool {
    match reg {
        None => true,
        Some(r) => timestamp >= r.0,
    }
}

/// The register state after a write: replaced if accepted, unchanged if not.
pub open spec fn lww_write(
    reg: Option<(u64, Option<Seq<u8>>)>,
    write: (u64, Option<Seq<u8>>),
) -> Option<(u64, Option<Seq<u8>>)> {
    if lww_write_accepted(reg, write.0) {
        Some(write)
    } else {
        reg
    }
}

/// The register state after a whole sequence of writes, applied in order to
/// an initially absent register.
pub open spec fn lww_run(writes: Seq<(u64, Option<Seq<u8>>)>) -> Option<(u64, Option<Seq<u8>>)>
    decreases writes.len(),
{
    if writes.len() == 0 {
        None
    } else {
        lww_write(lww_run(writes.drop_last()), writes.last())
    }
}

/// The index of the write that wins a sequence: the last one carrying the
/// maximum timestamp.
pub open spec fn last_max_index(writes: Seq<(u64, Option<Seq<u8>>)>) -> int
    decreases writes.len(),
{
    if writes.len() <= 1 {
        0
    } else {
        let r = last_max_index(writes.drop_last());
        if writes.last().0 >= writes[r].0 {
            writes.len() - 1
        } else {
            r
        }
    }
}

/// Last write wins.  For any non-empty sequence of writes to one register,
/// the final state is exactly the write with the maximum timestamp; when
/// several writes share the maximum, the last of them in application order.
pub proof fn lemma_lww_last_write_wins(writes: Seq<(u64, Option<Seq<u8>>)>)
    requires
        writes.len() > 0,
    ensures
        ({
            let m = last_max_index(writes);
            &&& 0 <= m < writes.len()
            &&& lww_run(writes) == Some(writes[m])
            &&& forall|i: int| 0 <= i < writes.len() ==> (#[trigger] writes[i]).0 <= writes[m].0
            &&& forall|i: int| m < i < writes.len() ==> (#[trigger] writes[i]).0 < writes[m].0
        }),
    decreases writes.len(),
{
    if writes.len() == 1 {
        assert(writes.drop_last().len() == 0);
        assert(lww_run(writes) == lww_write(None, writes.last()));
    } else {
        let prefix = writes.drop_last();
        lemma_lww_last_write_wins(prefix);
        let r = last_max_index(prefix);
        let m = last_max_index(writes);
        assert(prefix.len() == writes.len() - 1);
        assert forall|i: int| 0 <= i < prefix.len() implies (#[trigger] writes[i]) == prefix[i] by {}
        assert(lww_run(writes) == lww_write(lww_run(prefix), writes.last()));
        if writes.last().0 >= writes[r].0 {
            assert(m == writes.len() - 1);
            assert(lww_run(writes) == Some(writes.last()));
            assert(writes[m] == writes.last());
            assert forall|i: int| 0 <= i < writes.len() implies (#[trigger] writes[i]).0 <= writes[m].0 by {
                if i < prefix.len() {
                    assert(prefix[i].0 <= prefix[r].0);
                }
            }
        } else {
            assert(m == r);
            assert(lww_run(writes) == lww_run(prefix));
            assert(lww_run(writes) == Some(writes[m]));
            assert forall|i: int| 0 <= i < writes.len() implies (#[trigger] writes[i]).0 <= writes[m].0 by {
                if i < prefix.len() {
                    assert(prefix[i].0 <= prefix[r].0);
                } else {
                    assert(writes[i] == writes.last());
                }
            }
            assert forall|i: int| m < i < writes.len() implies (#[trigger] writes[i]).0 < writes[m].0 by {
                if i < prefix.len() {
                    assert(prefix[i].0 < prefix[r].0);
                } else {
                    assert(writes[i] == writes.last());
                }
            }
        }
    }
}

/// Convergence: two replicas that receive the same set of register writes,
/// in any order, end with the same register state, provided the writes
/// carry distinct timestamps.  (With equal timestamps the tie goes to
/// processing order, so replaying a batch out of order can diverge: see the
/// module note.)
pub proof fn lemma_lww_convergence(
    s1: Seq<(u64, Option<Seq<u8>>)>,
    s2: Seq<(u64, Option<Seq<u8>>)>,
)
    requires
        s1.to_multiset() == s2.to_multiset(),
        forall|i: int, j: int| 0 <= i < j < s1.len() ==> (#[trigger] s1[i]).0 != (#[trigger] s1[j]).0,
    ensures
        lww_run(s1) == lww_run(s2),
{
    broadcast use vstd::seq_lib::group_to_multiset_ensures;

    assert(s1.to_multiset().len() == s1.len());
    assert(s2.to_multiset().len() == s2.len());
    if s1.len() == 0 {
        assert(s2.len() == 0);
    } else {
        lemma_lww_last_write_wins(s1);
        lemma_lww_last_write_wins(s2);
        let m1 = last_max_index(s1);
        let m2 = last_max_index(s2);
        assert(s1.contains(s1[m1]));
        assert(s2.to_multiset().count(s1[m1]) > 0);
        assert(s2.contains(s1[m1]));
        let j2 = choose|j: int| 0 <= j < s2.len() && s2[j] == s1[m1];
        assert(s2[j2].0 <= s2[m2].0);
        assert(s2.contains(s2[m2]));
        assert(s1.to_multiset().count(s2[m2]) > 0);
        assert(s1.contains(s2[m2]));
        let j1 = choose|j: int| 0 <= j < s1.len() && s1[j] == s2[m2];
        assert(s1[j1].0 <= s1[m1].0);
        assert(s1[m1].0 == s2[m2].0);
        assert(j1 == m1) by {
            if j1 < m1 {
                assert(s1[j1].0 != s1[m1].0);
            }
            if m1 < j1 {
                assert(s1[m1].0 != s1[j1].0);
            }
        }
        assert(s1[m1] == s2[m2]);
    }
}

/// What remains to be delivered from a grow-only list.
pub open spec fn go_pending(items: Seq<Seq<u8>>, taken: int) -> Seq<Seq<u8>> {
    items.skip(taken)
}

/// A grow-only list delivers every append exactly once, in append order:
/// whatever is appended after a drain point is delivered, in order, after
/// what was already pending, and once everything is handed out a further
/// drain delivers nothing.
pub proof fn lemma_go_exactly_once(items: Seq<Seq<u8>>, taken: int, appended: Seq<Seq<u8>>)
    requires
        0 <= taken <= items.len(),
    ensures
        go_pending(items + appended, taken) == go_pending(items, taken) + appended,
        go_pending(items + appended, (items + appended).len() as int) == Seq::<Seq<u8>>::empty(),
{
    assert(go_pending(items + appended, taken) =~= go_pending(items, taken) + appended);
    assert(go_pending(items + appended, (items + appended).len() as int) =~= Seq::<Seq<u8>>::empty());
}

/// Grow-only appends are insensitive to order: whatever order the same set
/// of payloads arrives in, the list accumulates the same collection of
/// values (only their positions differ).
pub proof fn lemma_go_order_insensitive(
    items: Seq<Seq<u8>>,
    s1: Seq<Seq<u8>>,
    s2: Seq<Seq<u8>>,
)
    requires
        s1.to_multiset() == s2.to_multiset(),
    ensures
        (items + s1).to_multiset() == (items + s2).to_multiset(),
{
    vstd::seq_lib::lemma_multiset_commutative(items, s1);
    vstd::seq_lib::lemma_multiset_commutative(items, s2);
}

/// True iff the key's entity part is the packed form of one of the ids.
pub open spec fn key_refers(k: u64, died: Seq<SceneEntityId>) -> bool {
    exists|i: int| 0 <= i < died.len() && (#[trigger] died[i]).spec_pack() == key_entity(k)
}

/// An index of the abstract grow-only entry carrying the key (unique while
/// the keys are unique).
pub open spec fn model_index_of(s: Seq<(u64, (Seq<Seq<u8>>, int))>, k: u64) -> int {
    choose|i: int| 0 <= i < s.len() && (#[trigger] s[i]).0 == k
}

/// The map view and the entry-sequence view of the grow-only lists agree:
/// a key is in the map iff some abstract entry carries it, and that entry
/// holds the key's list and drain position.
pub proof fn lemma_go_entries_correspond(s: CrdtStore, k: u64)
    requires
        s.wf(),
    ensures
        s.go_model().contains_key(k) == (exists|j: int|
            0 <= j < s.go_entries_model().len() && (#[trigger] s.go_entries_model()[j]).0 == k),
        s.go_model().contains_key(k) ==> ({
            let i = model_index_of(s.go_entries_model(), k);
            &&& 0 <= i < s.go_entries_model().len()
            &&& s.go_entries_model()[i].0 == k
            &&& s.go_entries_model()[i].1.0 == s.go_model()[k]
            &&& s.go_entries_model()[i].1.1 == s.taken_model()[k]
        }),
{
    let m = s.go_entries_model();
    assert(forall|q: int| 0 <= q < m.len() ==> (#[trigger] m[q]).0 == s.go.entries()[q].0);
    if s.go_model().contains_key(k) {
        let a = index_of_key(s.go.entries(), k);
        assert(0 <= a < m.len() && m[a].0 == k);
        let i = model_index_of(m, k);
        assert(0 <= i < m.len() && m[i].0 == k);
        assert(s.go.entries()[i].0 == k);
        lemma_index_unique(s.go.entries(), i);
        assert(m[i].1.0 == s.go.entries()[i].1.items.deep_view());
        assert(m[i].1.1 == s.go.entries()[i].1.taken as int);
    }
    if exists|j: int| 0 <= j < m.len() && (#[trigger] m[j]).0 == k {
        let j = choose|j: int| 0 <= j < m.len() && (#[trigger] m[j]).0 == k;
        assert(s.go.entries()[j].0 == k);
        assert(seq_contains_key(s.go.entries(), k));
    }
}

/// Whether any register belongs to the component.
pub open spec fn lww_has_component(s: CrdtStore, component: u32) -> bool {
    exists|k: u64| #[trigger] s.lww_model().contains_key(k) && key_component(k) == component
}

/// Whether any grow-only list belongs to the component.
pub open spec fn go_has_component(s: CrdtStore, component: u32) -> bool {
    exists|k: u64| #[trigger] s.go_model().contains_key(k) && key_component(k) == component
}

/// The store's contents agree with a registry: every register belongs to a
/// component registered last-write-wins, every grow-only list to one
/// registered grow-only.  Since a component has one registered rule, this
/// implies the one-map-per-component invariant.
pub open spec fn store_follows_registry(s: CrdtStore, reg: Map<u64, CrdtKind>) -> bool {
    &&& forall|k: u64| #[trigger] s.lww_model().contains_key(k)
        ==> reg.contains_key(key_component(k) as u64)
            && reg[key_component(k) as u64] == CrdtKind::Lww
    &&& forall|k: u64| #[trigger] s.go_model().contains_key(k)
        ==> reg.contains_key(key_component(k) as u64)
            && reg[key_component(k) as u64] == CrdtKind::Go
}

/// One last-write-wins update handed out by `take_updates`.
pub struct LwwUpdate {
    pub component: u32,
    pub entity: SceneEntityId,
    pub timestamp: u64,
    pub value: Option<Vec<u8>>,
}

/// One grow-only update handed out by `take_updates`.
pub struct GoUpdate {
    pub component: u32,
    pub entity: SceneEntityId,
    pub payload: Vec<u8>,
}

/// Everything that changed since the previous drain.
pub struct UpdateBatch {
    pub lww: Vec<LwwUpdate>,
    pub go: Vec<GoUpdate>,
}

/// The grow-only part of a drain: for each list in entry order, its pending
/// payloads in append order, each tagged with its store key.
pub open spec fn take_go_output(entries: Seq<(u64, (Seq<Seq<u8>>, int))>) -> Seq<(u64, Seq<u8>)>
    decreases entries.len(),
{
    if entries.len() == 0 {
        Seq::empty()
    } else {
        let e = entries.last();
        take_go_output(entries.drop_last())
            + go_pending(e.1.0, e.1.1).map_values(|p: Seq<u8>| (e.0, p))
    }
}

/// Pending payloads all come from lists present in the entries.
pub proof fn lemma_take_go_output_keys(entries: Seq<(u64, (Seq<Seq<u8>>, int))>)
    ensures
        forall|j: int| 0 <= j < take_go_output(entries).len()
            ==> exists|i: int| 0 <= i < entries.len()
                && (#[trigger] take_go_output(entries)[j]).0 == (#[trigger] entries[i]).0,
    decreases entries.len(),
{
    if entries.len() > 0 {
        lemma_take_go_output_keys(entries.drop_last());
        let prefix = take_go_output(entries.drop_last());
        let e = entries.last();
        assert forall|j: int| 0 <= j < take_go_output(entries).len()
            implies exists|i: int| 0 <= i < entries.len()
                && (#[trigger] take_go_output(entries)[j]).0 == (#[trigger] entries[i]).0 by {
            if j < prefix.len() {
                assert(take_go_output(entries)[j] == prefix[j]);
                let i = choose|i: int| 0 <= i < entries.drop_last().len()
                    && prefix[j].0 == (#[trigger] entries.drop_last()[i]).0;
                assert(entries[i].0 == entries.drop_last()[i].0);
            } else {
                assert(take_go_output(entries)[j].0 == e.0);
                assert(entries[entries.len() - 1].0 == e.0);
            }
        }
    }
}

/// The conflict-free component store of one scene.
pub struct CrdtStore {
    lww: KvMap<LwwEntry>,
    dirty: Vec<u64>,
    go: KvMap<GoList>,
}

impl CrdtStore {
    /// The last-write-wins registers: store key to (timestamp, value).
    pub closed spec fn lww_model(self) -> Map<u64, (u64, Option<Seq<u8>>)> {
        Map::new(
            |k: u64| self.lww.as_map().contains_key(k),
            |k: u64| self.lww.as_map()[k]@,
        )
    }

    /// The keys written since the last drain, in first-write order.
    pub closed spec fn dirty_model(self) -> Seq<u64> {
        self.dirty@
    }

    /// The grow-only lists: store key to every payload ever appended.
    pub closed spec fn go_model(self) -> Map<u64, Seq<Seq<u8>>> {
        Map::new(
            |k: u64| self.go.as_map().contains_key(k),
            |k: u64| self.go.as_map()[k].items.deep_view(),
        )
    }

    /// How much of each grow-only list has already been handed out.
    pub closed spec fn taken_model(self) -> Map<u64, int> {
        Map::new(
            |k: u64| self.go.as_map().contains_key(k),
            |k: u64| self.go.as_map()[k].taken as int,
        )
    }

    /// The grow-only entries in store order, abstracted.
    pub closed spec fn go_entries_model(self) -> Seq<(u64, (Seq<Seq<u8>>, int))> {
        self.go.entries().map_values(
            |e: (u64, GoList)| (e.0, (e.1.items.deep_view(), e.1.taken as int)),
        )
    }

    pub closed spec fn wf(self) -> bool {
        &&& self.lww.wf()
        &&& self.go.wf()
        &&& (forall|i: int, j: int|
            0 <= i < j < self.dirty@.len() ==> #[trigger] self.dirty@[i] != #[trigger] self.dirty@[j])
        &&& forall|i: int| 0 <= i < self.dirty@.len()
            ==> self.lww.as_map().contains_key(#[trigger] self.dirty@[i])
        &&& forall|i: int| 0 <= i < self.go.entries().len()
            ==> (#[trigger] self.go.entries()[i]).1.taken <= self.go.entries()[i].1.items@.len()
        &&& forall|k1: u64, k2: u64|
            #[trigger] self.lww.as_map().contains_key(k1)
                && #[trigger] self.go.as_map().contains_key(k2)
            ==> key_component(k1) != key_component(k2)
    }

    pub fn new() -> (r: CrdtStore)
        ensures
            r.wf(),
            r.lww_model() == Map::<u64, (u64, Option<Seq<u8>>)>::empty(),
            r.dirty_model() == Seq::<u64>::empty(),
            r.go_model() == Map::<u64, Seq<Seq<u8>>>::empty(),
    {
        let r = CrdtStore { lww: KvMap::new(), dirty: Vec::new(), go: KvMap::new() };
        proof {
            assert(r.lww_model() =~= Map::<u64, (u64, Option<Seq<u8>>)>::empty());
            assert(r.go_model() =~= Map::<u64, Seq<Seq<u8>>>::empty());
        }
        r
    }

    /// The register currently stored for a key, if any.
    pub open spec fn spec_reg(self, k: u64) -> Option<(u64, Option<Seq<u8>>)> {
        if self.lww_model().contains_key(k) {
            Some(self.lww_model()[k])
        } else {
            None
        }
    }

    /// Apply one last-write-wins write.  The write is accepted iff no
    /// register exists yet or the incoming timestamp is at least the stored
    /// one; an accepted write replaces the register and marks the key dirty
    /// for the next drain; a rejected write changes nothing.
    pub fn apply_lww(
        &mut self,
        component: u32,
        entity: SceneEntityId,
        timestamp: u64,
        value: Option<Vec<u8>>,
    ) -> (accepted: bool)
        requires
            old(self).wf(),
            !go_has_component(*old(self), component),
        ensures
            final(self).wf(),
            accepted == lww_write_accepted(old(self).spec_reg(spec_crdt_key(component, entity)), timestamp),
            ({
                let k = spec_crdt_key(component, entity);
                if accepted {
                    &&& final(self).lww_model() == old(self).lww_model().insert(k, (timestamp, value.deep_view()))
                    &&& final(self).dirty_model() == (if old(self).dirty_model().contains(k) {
                        old(self).dirty_model()
                    } else {
                        old(self).dirty_model().push(k)
                    })
                } else {
                    &&& final(self).lww_model() == old(self).lww_model()
                    &&& final(self).dirty_model() == old(self).dirty_model()
                }
            }),
            final(self).go_model() == old(self).go_model(),
            final(self).taken_model() == old(self).taken_model(),
            final(self).go_entries_model() == old(self).go_entries_model(),
    {
        let k = crdt_key(component, entity);
        let accepted = match self.lww.get(k) {
            Some(entry) => timestamp >= entry.timestamp,
            None => true,
        };
        if accepted {
            self.lww.insert(k, LwwEntry { timestamp, value });
            proof {
                assert(self.lww_model() =~= old(self).lww_model().insert(
                    k, (timestamp, value.deep_view())));
                assert(self.go_model() =~= old(self).go_model());
                assert(self.taken_model() =~= old(self).taken_model());
                lemma_key_parts(component, entity);
                assert forall|k1: u64, k2: u64|
                    #[trigger] self.lww.as_map().contains_key(k1)
                        && #[trigger] self.go.as_map().contains_key(k2)
                    implies key_component(k1) != key_component(k2) by {
                    assert(self.go_model().contains_key(k2));
                    if k1 != k {
                        assert(old(self).lww.as_map().contains_key(k1));
                    } else {
                        assert(key_component(k1) == component);
                        if key_component(k2) == component {
                            assert(go_has_component(*old(self), component));
                        }
                    }
                }
            }
            if !vec_contains_u64(&self.dirty, k) {
                self.dirty.push(k);
                proof {
                    let d2 = self.dirty@;
                    let d1 = old(self).dirty@;
                    assert forall|i: int, j: int|
                        0 <= i < j < d2.len() implies #[trigger] d2[i] != #[trigger] d2[j] by {
                        if j < d1.len() {
                            assert(d1[i] == d2[i] && d1[j] == d2[j]);
                        } else {
                            assert(d2[j] == k);
                            if d2[i] == k {
                                assert(d1.contains(k));
                            }
                        }
                    }
                }
            }
            true
        } else {
            proof {
                assert(self.lww_model() =~= old(self).lww_model());
                assert(self.go_model() =~= old(self).go_model());
                assert(self.taken_model() =~= old(self).taken_model());
            }
            false
        }
    }

    /// Append one grow-only payload.  Always accepted; the payload joins the
    /// end of the key's list and will be delivered by the next drain.
    pub fn apply_go(&mut self, component: u32, entity: SceneEntityId, payload: Vec<u8>)
        requires
            old(self).wf(),
            !lww_has_component(*old(self), component),
        ensures
            final(self).wf(),
            ({
                let k = spec_crdt_key(component, entity);
                let prior = if old(self).go_model().contains_key(k) {
                    old(self).go_model()[k]
                } else {
                    Seq::empty()
                };
                &&& final(self).go_model() == old(self).go_model().insert(k, prior.push(payload@))
                &&& final(self).taken_model() == (if old(self).taken_model().contains_key(k) {
                    old(self).taken_model()
                } else {
                    old(self).taken_model().insert(k, 0)
                })
                &&& final(self).go_entries_model() == (if old(self).go_model().contains_key(k) {
                    old(self).go_entries_model().update(
                        model_index_of(old(self).go_entries_model(), k),
                        (k, (prior.push(payload@), old(self).taken_model()[k])),
                    )
                } else {
                    old(self).go_entries_model().push((k, (prior.push(payload@), 0)))
                })
            }),
            final(self).lww_model() == old(self).lww_model(),
            final(self).dirty_model() == old(self).dirty_model(),
    {
        let k = crdt_key(component, entity);
        match self.go.index_of(k) {
            Some(i) => {
                proof {
                    lemma_index_unique(self.go.entries(), i as int);
                }
                let entry = self.go.value_at_mut(i);
                entry.items.push(payload);
                proof {
                    crate::kvmap::lemma_update_value(
                        old(self).go.entries(),
                        i as int,
                        self.go.entries()[i as int].1,
                    );
                    assert(self.go_model() =~~= old(self).go_model().insert(
                        k,
                        old(self).go_model()[k].push(payload@)));
                    assert(self.taken_model() =~= old(self).taken_model());
                    assert(self.lww_model() =~= old(self).lww_model());
                    let mold = old(self).go_entries_model();
                    assert(forall|q: int| 0 <= q < mold.len()
                        ==> (#[trigger] mold[q]).0 == old(self).go.entries()[q].0);
                    assert(mold[i as int].0 == k);
                    assert(model_index_of(mold, k) == i as int) by {
                        let w = model_index_of(mold, k);
                        assert(mold[i as int].0 == k);
                        assert(0 <= w < mold.len() && mold[w].0 == k);
                        assert(old(self).go.entries()[w].0 == k);
                        lemma_index_unique(old(self).go.entries(), w);
                        lemma_index_unique(old(self).go.entries(), i as int);
                    }
                    assert(self.go_entries_model() =~~= mold.update(
                        i as int,
                        (k, (old(self).go_model()[k].push(payload@), old(self).taken_model()[k])),
                    ));
                    assert forall|k1: u64, k2: u64|
                        #[trigger] self.lww.as_map().contains_key(k1)
                            && #[trigger] self.go.as_map().contains_key(k2)
                        implies key_component(k1) != key_component(k2) by {
                        assert(old(self).go.as_map().contains_key(k2));
                    }
                }
            }
            None => {
                let mut items: Vec<Vec<u8>> = Vec::new();
                items.push(payload);
                proof {
                    crate::kvmap::lemma_push_fresh(
                        self.go.entries(), k, GoList { items, taken: 0 });
                }
                self.go.insert(k, GoList { items, taken: 0 });
                proof {
                    assert(self.go_model() =~~= old(self).go_model().insert(
                        k,
                        Seq::<Seq<u8>>::empty().push(payload@)));
                    assert(self.taken_model() =~= old(self).taken_model().insert(k, 0));
                    assert(self.lww_model() =~= old(self).lww_model());
                    assert(self.go_entries_model() =~~= old(self).go_entries_model().push(
                        (k, (Seq::<Seq<u8>>::empty().push(payload@), 0)),
                    ));
                    lemma_key_parts(component, entity);
                    assert forall|k1: u64, k2: u64|
                        #[trigger] self.lww.as_map().contains_key(k1)
                            && #[trigger] self.go.as_map().contains_key(k2)
                        implies key_component(k1) != key_component(k2) by {
                        assert(self.lww_model().contains_key(k1));
                        if k2 != k {
                            assert(old(self).go.as_map().contains_key(k2));
                        } else {
                            assert(key_component(k2) == component);
                            if key_component(k1) == component {
                                assert(lww_has_component(*old(self), component));
                            }
                        }
                    }
                }
            }
        }
    }
}

impl CrdtStore {
    /// Renderer-originated direct write, bypassing network framing, routed
    /// by the component's merge rule.  A register write lands with the
    /// successor of the stored timestamp (0 on first write), so it
    /// supersedes what is stored without being privileged over a genuinely
    /// newer scene write arriving later; a `None` value writes a tombstone.
    /// A grow-only write appends its payload.
    pub fn force_update(&mut self, component: u32, kind: CrdtKind, entity: SceneEntityId, value: Option<Vec<u8>>)
        requires
            old(self).wf(),
            kind == CrdtKind::Lww ==> !go_has_component(*old(self), component),
            kind == CrdtKind::Go ==> !lww_has_component(*old(self), component) && value is Some,
        ensures
            final(self).wf(),
            kind == CrdtKind::Lww ==> ({
                let k = spec_crdt_key(component, entity);
                let ts: u64 = match old(self).spec_reg(k) {
                    None => 0,
                    Some(r) => if r.0 == u64::MAX { u64::MAX } else { (r.0 + 1) as u64 },
                };
                &&& final(self).lww_model() == old(self).lww_model().insert(k, (ts, value.deep_view()))
                &&& final(self).dirty_model() == (if old(self).dirty_model().contains(k) {
                    old(self).dirty_model()
                } else {
                    old(self).dirty_model().push(k)
                })
                &&& final(self).go_model() == old(self).go_model()
                &&& final(self).taken_model() == old(self).taken_model()
                &&& final(self).go_entries_model() == old(self).go_entries_model()
            }),
            kind == CrdtKind::Go ==> ({
                let k = spec_crdt_key(component, entity);
                let prior = if old(self).go_model().contains_key(k) {
                    old(self).go_model()[k]
                } else {
                    Seq::empty()
                };
                &&& final(self).go_model() == old(self).go_model().insert(k, prior.push(value->0@))
                &&& final(self).taken_model() == (if old(self).taken_model().contains_key(k) {
                    old(self).taken_model()
                } else {
                    old(self).taken_model().insert(k, 0)
                })
                &&& final(self).lww_model() == old(self).lww_model()
                &&& final(self).dirty_model() == old(self).dirty_model()
            }),
    {
        match kind {
            CrdtKind::Lww => {
                let k = crdt_key(component, entity);
                let ts: u64 = match self.lww.get(k) {
                    Some(entry) => if entry.timestamp == u64::MAX { u64::MAX } else { entry.timestamp + 1 },
                    None => 0,
                };
                let accepted = self.apply_lww(component, entity, ts, value);
                proof {
                    assert(accepted);
                }
            }
            CrdtKind::Go => {
                let payload = value.unwrap();
                self.apply_go(component, entity, payload);
            }
        }
    }

    /// Drain everything that changed since the previous drain: the current
    /// register of every dirty key (in first-write order), and every pending
    /// grow-only payload (in store order, each list in append order).  Each
    /// update is handed out exactly once: afterwards no key is dirty and
    /// every grow-only list is fully taken, while the stored registers and
    /// lists themselves are kept.
    pub fn take_updates(&mut self) -> (batch: UpdateBatch)
        requires
            old(self).wf(),
        ensures
            final(self).wf(),
            final(self).lww_model() == old(self).lww_model(),
            final(self).dirty_model() == Seq::<u64>::empty(),
            final(self).go_model() == old(self).go_model(),
            final(self).taken_model() == Map::new(
                |k: u64| old(self).go_model().contains_key(k),
                |k: u64| old(self).go_model()[k].len() as int,
            ),
            final(self).go_entries_model() == old(self).go_entries_model().map_values(
                (|e: (u64, (Seq<Seq<u8>>, int))| (e.0, (e.1.0, e.1.0.len() as int))),
            ),
            batch.lww@.len() == old(self).dirty_model().len(),
            forall|i: int| 0 <= i < batch.lww@.len() ==> {
                let k = old(self).dirty_model()[i];
                let u = #[trigger] batch.lww@[i];
                &&& spec_crdt_key(u.component, u.entity) == k
                &&& old(self).lww_model().contains_key(k)
                &&& (u.timestamp, u.value.deep_view()) == old(self).lww_model()[k]
            },
            batch.go@.map_values(
                (|u: GoUpdate| (spec_crdt_key(u.component, u.entity), u.payload@)),
            ) == take_go_output(old(self).go_entries_model()),
    {
        let ghost tag = |u: GoUpdate| (spec_crdt_key(u.component, u.entity), u.payload@);
        let ghost m = old(self).go_entries_model();

        let mut lww_out: Vec<LwwUpdate> = Vec::new();
        let mut i: usize = 0;
        let n = self.dirty.len();
        while i < n
            invariant
                *self == *old(self),
                old(self).wf(),
                n == self.dirty@.len(),
                i <= n,
                lww_out@.len() == i,
                forall|j: int| 0 <= j < i ==> {
                    let k = old(self).dirty_model()[j];
                    let u = #[trigger] lww_out@[j];
                    &&& spec_crdt_key(u.component, u.entity) == k
                    &&& old(self).lww_model().contains_key(k)
                    &&& (u.timestamp, u.value.deep_view()) == old(self).lww_model()[k]
                },
            decreases n - i,
        {
            let k = self.dirty[i];
            let (component, entity) = key_parts(k);
            let entry = self.lww.get(k).unwrap();
            let value = copy_opt_bytes(&entry.value);
            lww_out.push(LwwUpdate { component, entity, timestamp: entry.timestamp, value });
            i += 1;
        }
        self.dirty.clear();

        let mut go_out: Vec<GoUpdate> = Vec::new();
        let mut i: usize = 0;
        let n = self.go.len();
        while i < n
            invariant
                self.lww == old(self).lww,
                self.dirty@.len() == 0,
                old(self).wf(),
                self.go.wf(),
                n == self.go.entries().len(),
                n == old(self).go.entries().len(),
                i <= n,
                m == old(self).go_entries_model(),
                forall|j: int| i <= j < n
                    ==> (#[trigger] self.go.entries()[j]) == old(self).go.entries()[j],
                forall|j: int| 0 <= j < i ==> {
                    let e = #[trigger] self.go.entries()[j];
                    let e0 = old(self).go.entries()[j];
                    &&& e.0 == e0.0
                    &&& e.1.items == e0.1.items
                    &&& e.1.taken == e0.1.items@.len()
                },
                go_out@.map_values(
                    (|u: GoUpdate| (spec_crdt_key(u.component, u.entity), u.payload@)),
                ) == take_go_output(m.take(i as int)),
            decreases n - i,
        {
            let entry = self.go.entry_at(i);
            let k = entry.0;
            let taken = entry.1.taken;
            let item_count = entry.1.items.len();
            let (component, entity) = key_parts(k);
            proof {
                assert(m[i as int] == (k, (old(self).go.entries()[i as int].1.items.deep_view(), taken as int)));
            }
            let ghost pend = go_pending(m[i as int].1.0, m[i as int].1.1);
            let mut j: usize = taken;
            while j < item_count
                invariant
                    self.lww == old(self).lww,
                    self.dirty@.len() == 0,
                    old(self).wf(),
                    self.go.wf(),
                    n == self.go.entries().len(),
                    n == old(self).go.entries().len(),
                    i < n,
                    m == old(self).go_entries_model(),
                    forall|q: int| i <= q < n
                        ==> (#[trigger] self.go.entries()[q]) == old(self).go.entries()[q],
                    forall|q: int| 0 <= q < i ==> {
                        let e = #[trigger] self.go.entries()[q];
                        let e0 = old(self).go.entries()[q];
                        &&& e.0 == e0.0
                        &&& e.1.items == e0.1.items
                        &&& e.1.taken == e0.1.items@.len()
                    },
                    k == old(self).go.entries()[i as int].0,
                    taken == old(self).go.entries()[i as int].1.taken,
                    item_count == old(self).go.entries()[i as int].1.items@.len(),
                    spec_crdt_key(component, entity) == k,
                    taken <= j <= item_count,
                    pend == go_pending(m[i as int].1.0, m[i as int].1.1),
                    pend.len() == item_count - taken,
                    go_out@.map_values(
                        (|u: GoUpdate| (spec_crdt_key(u.component, u.entity), u.payload@)),
                    ) == take_go_output(m.take(i as int))
                        + pend.take(j - taken).map_values((|p: Seq<u8>| (k, p))),
                decreases item_count - j,
            {
                let entry = self.go.entry_at(i);
                let payload = copy_bytes(&entry.1.items[j]);
                let ghost before = go_out@;
                let u = GoUpdate { component, entity, payload };
                go_out.push(u);
                j += 1;
                proof {
                    let f = |u2: GoUpdate| (spec_crdt_key(u2.component, u2.entity), u2.payload@);
                    let g = |p: Seq<u8>| (k, p);
                    assert(m[i as int] == (k, (old(self).go.entries()[i as int].1.items.deep_view(), taken as int)));
                    assert(old(self).go.entries()[i as int].1.items.deep_view()[j - 1] =~= payload@);
                    assert(pend[j - taken - 1] == old(self).go.entries()[i as int].1.items.deep_view()[j - 1]);
                    assert(f(u) == (k, payload@));
                    assert(go_out@ == before.push(u));
                    assert(go_out@.map_values(f) =~= before.map_values(f).push(f(u)));
                    assert(pend.take(j - taken) =~= pend.take(j - taken - 1).push(pend[j - taken - 1]));
                    assert(pend.take(j - taken).map_values(g)
                        =~= pend.take(j - taken - 1).map_values(g).push(g(pend[j - taken - 1])));
                    assert(go_out@.map_values(f) =~= take_go_output(m.take(i as int))
                        + pend.take(j - taken).map_values(g));
                }
            }
            let ghost pre = self.go.entries();
            let slot = self.go.value_at_mut(i);
            slot.taken = item_count;
            proof {
                crate::kvmap::lemma_update_value(pre, i as int, self.go.entries()[i as int].1);
            }
            i += 1;
            proof {
                assert(m.take(i as int).drop_last() =~= m.take(i as int - 1));
                assert(m.take(i as int).last() == m[i as int - 1]);
                assert(pend.take(item_count - taken as int) =~= pend);
                assert(take_go_output(m.take(i as int)) == take_go_output(m.take(i as int - 1))
                    + go_pending(m[i as int - 1].1.0, m[i as int - 1].1.1).map_values(
                        (|p: Seq<u8>| (m[i as int - 1].0, p))));
                assert(pend.map_values((|p: Seq<u8>| (k, p)))
                    =~= go_pending(m[i as int - 1].1.0, m[i as int - 1].1.1).map_values(
                        (|p: Seq<u8>| (m[i as int - 1].0, p))));
            }
        }
        proof {
            assert(m.take(n as int) =~= m);
            assert(self.lww_model() =~= old(self).lww_model());
            assert(self.go_model() =~= old(self).go_model()) by {
                assert forall|k2: u64| #[trigger] self.go.as_map().contains_key(k2)
                    == old(self).go.as_map().contains_key(k2) by {
                    if crate::kvmap::seq_contains_key(self.go.entries(), k2) {
                        let a = index_of_key(self.go.entries(), k2);
                        assert(old(self).go.entries()[a].0 == k2);
                    }
                    if crate::kvmap::seq_contains_key(old(self).go.entries(), k2) {
                        let a = index_of_key(old(self).go.entries(), k2);
                        assert(self.go.entries()[a].0 == k2);
                    }
                }
                assert forall|k2: u64| self.go.as_map().contains_key(k2)
                    implies #[trigger] self.go.as_map()[k2].items == old(self).go.as_map()[k2].items
                        && self.go.as_map()[k2].taken == old(self).go.as_map()[k2].items@.len() by {
                    let a = index_of_key(self.go.entries(), k2);
                    lemma_index_unique(self.go.entries(), a);
                    assert(old(self).go.entries()[a].0 == k2);
                    lemma_index_unique(old(self).go.entries(), a);
                }
            }
            assert(self.taken_model() =~= Map::new(
                |k2: u64| old(self).go_model().contains_key(k2),
                |k2: u64| old(self).go_model()[k2].len() as int,
            ));
            assert(self.go_entries_model() =~= old(self).go_entries_model().map_values(
                (|e: (u64, (Seq<Seq<u8>>, int))| (e.0, (e.1.0, e.1.0.len() as int))),
            ));
            assert forall|k1: u64, k2: u64|
                #[trigger] self.lww.as_map().contains_key(k1)
                    && #[trigger] self.go.as_map().contains_key(k2)
                implies key_component(k1) != key_component(k2) by {
                assert(old(self).lww.as_map().contains_key(k1));
                assert(old(self).go.as_map().contains_key(k2));
            }
        }
        UpdateBatch { lww: lww_out, go: go_out }
    }

    /// Forget every register, list and pending update belonging to the given
    /// entities, across all components, so that memory does not grow without
    /// bound as entities churn.
    pub fn clean_up(&mut self, died: &Vec<SceneEntityId>)
        requires
            old(self).wf(),
        ensures
            final(self).wf(),
            final(self).lww_model() == Map::new(
                |k: u64| old(self).lww_model().contains_key(k) && !key_refers(k, died@),
                |k: u64| old(self).lww_model()[k],
            ),
            final(self).go_model() == Map::new(
                |k: u64| old(self).go_model().contains_key(k) && !key_refers(k, died@),
                |k: u64| old(self).go_model()[k],
            ),
            final(self).taken_model() == Map::new(
                |k: u64| old(self).taken_model().contains_key(k) && !key_refers(k, died@),
                |k: u64| old(self).taken_model()[k],
            ),
            final(self).dirty_model() == old(self).dirty_model().filter(
                (|k: u64| !key_refers(k, died@)),
            ),
            forall|i: int| 0 <= i < final(self).dirty_model().len()
                ==> !key_refers(#[trigger] final(self).dirty_model()[i], died@),
            forall|i: int| 0 <= i < final(self).go_entries_model().len()
                ==> !key_refers((#[trigger] final(self).go_entries_model()[i]).0, died@),
    {
        let mut lww: KvMap<LwwEntry> = KvMap::new();
        let mut go: KvMap<GoList> = KvMap::new();
        core::mem::swap(&mut lww, &mut self.lww);
        core::mem::swap(&mut go, &mut self.go);
        let lww2 = retain_alive(lww, died);
        let go2 = retain_alive(go, died);
        self.lww = lww2;
        self.go = go2;

        let mut dirty2: Vec<u64> = Vec::new();
        let ghost dpred = |k: u64| !key_refers(k, died@);
        let mut i: usize = 0;
        let n = self.dirty.len();
        while i < n
            invariant
                self.lww == lww2,
                self.go == go2,
                n == self.dirty@.len(),
                self.dirty@ == old(self).dirty@,
                i <= n,
                dpred == (|k: u64| !key_refers(k, died@)),
                dirty2@ == self.dirty@.take(i as int).filter(dpred),
            decreases n - i,
        {
            let k = self.dirty[i];
            let entity_packed = (k % 0x1_0000_0000) as u32;
            proof {
                reveal(Seq::filter);
                assert(self.dirty@.take(i as int + 1).drop_last() =~= self.dirty@.take(i as int));
            }
            if !died_contains(died, entity_packed) {
                dirty2.push(k);
                proof {
                    assert(dpred(self.dirty@[i as int]));
                    assert(dirty2@ =~= self.dirty@.take(i as int + 1).filter(dpred));
                }
            } else {
                proof {
                    assert(!dpred(self.dirty@[i as int]));
                    assert(dirty2@ =~= self.dirty@.take(i as int + 1).filter(dpred));
                }
            }
            i += 1;
        }
        proof {
            assert(self.dirty@.take(n as int) =~= self.dirty@);
        }
        self.dirty = dirty2;

        proof {
            let d = died@;
            assert(self.lww_model() =~= Map::new(
                |k: u64| old(self).lww_model().contains_key(k) && !key_refers(k, d),
                |k: u64| old(self).lww_model()[k],
            ));
            assert(self.go_model() =~= Map::new(
                |k: u64| old(self).go_model().contains_key(k) && !key_refers(k, d),
                |k: u64| old(self).go_model()[k],
            ));
            assert(self.taken_model() =~= Map::new(
                |k: u64| old(self).taken_model().contains_key(k) && !key_refers(k, d),
                |k: u64| old(self).taken_model()[k],
            ));
            let epred = |e: (u64, GoList)| !key_refers(e.0, d);
            assert forall|i2: int| 0 <= i2 < self.go_entries_model().len()
                implies !key_refers((#[trigger] self.go_entries_model()[i2]).0, d) by {
                assert(self.go_entries_model()[i2].0 == self.go.entries()[i2].0);
                Seq::lemma_filter_pred(old(self).go.entries(), epred, i2);
            }
            assert forall|i2: int| 0 <= i2 < self.dirty@.len()
                implies !key_refers(#[trigger] self.dirty@[i2], d) by {
                Seq::lemma_filter_pred(old(self).dirty@, dpred, i2);
            }
            assert forall|i2: int| 0 <= i2 < self.dirty@.len()
                implies self.lww.as_map().contains_key(#[trigger] self.dirty@[i2]) by {
                crate::kvmap::lemma_filter_subset(old(self).dirty@, dpred, i2);
                let w = choose|w: int| 0 <= w < old(self).dirty@.len()
                    && old(self).dirty@[w] == self.dirty@[i2];
            }
            lemma_filter_distinct_u64(old(self).dirty@, dpred);
            let gpred = |e: (u64, GoList)| !key_refers(e.0, d);
            assert forall|i2: int| 0 <= i2 < self.go.entries().len()
                implies (#[trigger] self.go.entries()[i2]).1.taken
                    <= self.go.entries()[i2].1.items@.len() by {
                crate::kvmap::lemma_filter_subset(old(self).go.entries(), gpred, i2);
                let w = choose|w: int| 0 <= w < old(self).go.entries().len()
                    && old(self).go.entries()[w] == self.go.entries()[i2];
            }
        }
    }
}

/// Filtering a sequence of distinct values keeps them distinct.
proof fn lemma_filter_distinct_u64(s: Seq<u64>, pred: spec_fn(u64) -> bool)
    requires
        forall|i: int, j: int| 0 <= i < j < s.len() ==> #[trigger] s[i] != #[trigger] s[j],
    ensures
        forall|i: int, j: int| 0 <= i < j < s.filter(pred).len()
            ==> #[trigger] s.filter(pred)[i] != #[trigger] s.filter(pred)[j],
    decreases s.len(),
{
    reveal(Seq::filter);
    if s.len() > 0 {
        assert(forall|i: int| 0 <= i < s.drop_last().len() ==> (#[trigger] s.drop_last()[i]) == s[i]);
        lemma_filter_distinct_u64(s.drop_last(), pred);
        let sub = s.drop_last().filter(pred);
        let out = s.filter(pred);
        if pred(s.last()) {
            assert(out == sub.push(s.last()));
            assert forall|i: int, j: int| 0 <= i < j < out.len()
                implies #[trigger] out[i] != #[trigger] out[j] by {
                if j < sub.len() {
                    assert(out[i] == sub[i] && out[j] == sub[j]);
                } else {
                    assert(out[j] == s.last());
                    assert(out[i] == sub[i]);
                    crate::kvmap::lemma_filter_subset(s.drop_last(), pred, i);
                    let w = choose|w: int| 0 <= w < s.drop_last().len()
                        && s.drop_last()[w] == sub[i];
                    assert(s[w] == sub[i]);
                    assert(s[s.len() - 1] == s.last());
                }
            }
        }
    }
}

/// A fully drained list sequence has nothing pending: draining again
/// immediately delivers nothing.
pub proof fn lemma_take_go_output_drained(entries: Seq<(u64, (Seq<Seq<u8>>, int))>)
    requires
        forall|i: int| 0 <= i < entries.len()
            ==> (#[trigger] entries[i]).1.1 == entries[i].1.0.len(),
    ensures
        take_go_output(entries) == Seq::<(u64, Seq<u8>)>::empty(),
    decreases entries.len(),
{
    if entries.len() > 0 {
        assert(forall|i: int| 0 <= i < entries.drop_last().len()
            ==> (#[trigger] entries.drop_last()[i]) == entries[i]);
        lemma_take_go_output_drained(entries.drop_last());
        assert(go_pending(entries.last().1.0, entries.last().1.1) =~= Seq::<Seq<u8>>::empty());
        assert(take_go_output(entries) =~= Seq::<(u64, Seq<u8>)>::empty());
    }
}

/// A drain of a store that no longer holds a removed entity mentions none of
/// them: when every dirty key and every grow-only list key avoids the removed
/// entities (as they do after a clean-up), so does every drained update.
pub proof fn lemma_clean_up_excludes(
    dirty: Seq<u64>,
    entries: Seq<(u64, (Seq<Seq<u8>>, int))>,
    died: Seq<SceneEntityId>,
)
    requires
        forall|i: int| 0 <= i < dirty.len() ==> !key_refers(#[trigger] dirty[i], died),
        forall|i: int| 0 <= i < entries.len() ==> !key_refers((#[trigger] entries[i]).0, died),
    ensures
        forall|j: int| 0 <= j < take_go_output(entries).len()
            ==> !key_refers((#[trigger] take_go_output(entries)[j]).0, died),
{
    lemma_take_go_output_keys(entries);
    assert forall|j: int| 0 <= j < take_go_output(entries).len()
        implies !key_refers((#[trigger] take_go_output(entries)[j]).0, died) by {
        let i = choose|i: int| 0 <= i < entries.len()
            && take_go_output(entries)[j].0 == (#[trigger] entries[i]).0;
    }
}

/// Keep only the entries whose entity part is not among the dead.
fn retain_alive<V>(m: KvMap<V>, died: &Vec<SceneEntityId>) -> (r: KvMap<V>)
    requires
        m.wf(),
    ensures
        r.wf(),
        r.entries() == m.entries().filter((|e: (u64, V)| !key_refers(e.0, died@))),
        forall|k: u64| #[trigger] r.as_map().contains_key(k)
            == (m.as_map().contains_key(k) && !key_refers(k, died@)),
        forall|k: u64| r.as_map().contains_key(k)
            ==> #[trigger] r.as_map()[k] == m.as_map()[k],
{
    let ghost pred = |e: (u64, V)| !key_refers(e.0, died@);
    let ghost orig = m.entries();
    let mut src = m.into_entries();
    let mut out: KvMap<V> = KvMap::new();
    let mut processed: usize = 0;
    let n = src.len();
    while processed < n
        invariant
            crate::kvmap::keys_unique(orig),
            n == orig.len(),
            processed <= n,
            src@ == orig.skip(processed as int),
            pred == (|e: (u64, V)| !key_refers(e.0, died@)),
            out.wf(),
            out.entries() == orig.take(processed as int).filter(pred),
        decreases n - processed,
    {
        let (k, v) = src.remove(0);
        proof {
            assert(orig.skip(processed as int)[0] == orig[processed as int]);
            assert(src@ =~= orig.skip(processed as int + 1));
            reveal(Seq::filter);
            assert(orig.take(processed as int + 1).drop_last() =~= orig.take(processed as int));
        }
        let entity_packed = (k % 0x1_0000_0000) as u32;
        if !died_contains(died, entity_packed) {
            proof {
                assert(pred(orig[processed as int]));
                assert(!crate::kvmap::seq_contains_key(out.entries(), k)) by {
                    if crate::kvmap::seq_contains_key(out.entries(), k) {
                        let i = index_of_key(out.entries(), k);
                        crate::kvmap::lemma_filter_subset(orig.take(processed as int), pred, i);
                        let j = choose|j: int| 0 <= j < orig.take(processed as int).len()
                            && orig.take(processed as int)[j] == out.entries()[i];
                        assert(orig[j].0 == k);
                        assert(orig[processed as int].0 == k);
                    }
                }
            }
            out.insert(k, v);
            proof {
                assert(out.entries() =~= orig.take(processed as int + 1).filter(pred));
            }
        } else {
            proof {
                assert(!pred(orig[processed as int]));
                assert(out.entries() =~= orig.take(processed as int + 1).filter(pred));
            }
        }
        processed += 1;
    }
    proof {
        assert(orig.take(n as int) =~= orig);
        crate::kvmap::lemma_filter_keys_unique(orig, pred);
        let f = out.entries();
        assert forall|k: u64| #[trigger] crate::kvmap::seq_contains_key(f, k)
            == (crate::kvmap::seq_contains_key(orig, k) && !key_refers(k, died@)) by {
            if crate::kvmap::seq_contains_key(f, k) {
                let i = index_of_key(f, k);
                crate::kvmap::lemma_filter_subset(orig, pred, i);
                let j = choose|j: int| 0 <= j < orig.len() && orig[j] == f[i];
                assert(orig[j].0 == k);
                Seq::lemma_filter_pred(orig, pred, i);
            }
            if crate::kvmap::seq_contains_key(orig, k) && !key_refers(k, died@) {
                let j = index_of_key(orig, k);
                assert(pred(orig[j]));
                Seq::lemma_filter_contains(orig, pred, j);
                assert(f.contains(orig[j]));
                let i = choose|i: int| 0 <= i < f.len() && f[i] == orig[j];
                assert(f[i].0 == k);
            }
        }
        assert forall|k: u64| crate::kvmap::seq_contains_key(f, k)
            implies #[trigger] out.as_map()[k] == m.as_map()[k] by {
            let i = index_of_key(f, k);
            lemma_index_unique(f, i);
            crate::kvmap::lemma_filter_subset(orig, pred, i);
            let j = choose|j: int| 0 <= j < orig.len() && orig[j] == f[i];
            lemma_index_unique(orig, j);
        }
    }
    out
}

/// True iff one of the ids packs to the given entity key part.
fn died_contains(died: &Vec<SceneEntityId>, entity_packed: u32) -> (r: bool)
    ensures
        r == exists|i: int| 0 <= i < died@.len() && (#[trigger] died@[i]).spec_pack() == entity_packed,
{
    let mut i: usize = 0;
    let n = died.len();
    while i < n
        invariant
            n == died@.len(),
            i <= n,
            forall|j: int| 0 <= j < i ==> (#[trigger] died@[j]).spec_pack() != entity_packed,
        decreases n - i,
    {
        if died[i].pack() == entity_packed {
            return true;
        }
        i += 1;
    }
    false
}

/// A byte-for-byte copy.
pub fn copy_bytes(v: &Vec<u8>) -> (r: Vec<u8>)
    ensures
        r@ == v@,
{
    let mut r: Vec<u8> = Vec::new();
    let mut i: usize = 0;
    let n = v.len();
    while i < n
        invariant
            n == v@.len(),
            i <= n,
            r@ == v@.take(i as int),
        decreases n - i,
    {
        r.push(v[i]);
        proof {
            assert(r@ =~= v@.take(i as int + 1));
        }
        i += 1;
    }
    proof {
        assert(v@.take(n as int) =~= v@);
    }
    r
}

/// A copy of an optional payload.
pub fn copy_opt_bytes(v: &Option<Vec<u8>>) -> (r: Option<Vec<u8>>)
    ensures
        r.deep_view() == v.deep_view(),
        r is Some <==> v is Some,
{
    match v {
        Some(b) => {
            let c = copy_bytes(b);
            proof {
                assert(c.deep_view() =~= b.deep_view());
            }
            Some(c)
        }
        None => None,
    }
}

/// True iff the sequence holds the key.
pub fn vec_contains_u64(v: &Vec<u64>, k: u64) -> (r: bool)
    ensures
        r == v@.contains(k),
{
    let mut i: usize = 0;
    let n = v.len();
    while i < n
        invariant
            n == v@.len(),
            i <= n,
            forall|j: int| 0 <= j < i ==> v@[j] != k,
        decreases n - i,
    {
        if v[i] == k {
            return true;
        }
        i += 1;
    }
    false
}

} // verus!
