//! The spatial scheduler: decides each tick which scene instances must be
//! alive, from the viewer's position, the load radius, and the realm's
//! mandated scene set; resolves cell pointers through the cache and batches
//! uncached cells into a single outstanding lookup.
//!
//! Positions are in integer world units; a grid cell spans 16 units per
//! axis.  A cell is in range when the distance from the viewer to the
//! nearest point of the cell is strictly less than the load radius.

use vstd::prelude::*;

use crate::kvmap::{KvMap, index_of_key, lemma_index_unique};
use crate::pointers::{PointerResult, ScenePointers, contains_string, hash_views, parcel_key,
    spec_parcel_key};

verus! {

/// World units per grid cell, per axis.
pub const PARCEL_SIZE: i64 = 16;

/// A request to start loading a scene at a cell.
pub struct SpawnRequest {
    pub parcel: (i32, i32),
    pub hash: String,
}

/// One scene returned by a pointer lookup: its content hash and the cells
/// it spans.
pub struct ActiveScene {
    pub hash: String,
    pub parcels: Vec<(i32, i32)>,
}

/// What one scheduling pass asks the renderer to do.
pub struct TickActions {
    pub spawn: Vec<SpawnRequest>,
    pub despawn: Vec<u64>,
    pub request: Option<Vec<(i32, i32)>>,
}

pub open spec fn spec_clamp(v: int, lo: int, hi: int) -> int {
    if v <= lo {
        lo
    } else if v >= hi {
        hi
    } else {
        v
    }
}

/// Whether a cell is within the load radius: the nearest point of the cell
/// is strictly closer than the radius.
pub open spec fn spec_in_range(focus: (i64, i64), radius: i64, p: (i32, i32)) -> bool {
    let nx = spec_clamp(focus.0 as int, p.0 as int * 16, p.0 as int * 16 + 16);
    let ny = spec_clamp(focus.1 as int, p.1 as int * 16, p.1 as int * 16 + 16);
    (focus.0 - nx) * (focus.0 - nx) + (focus.1 - ny) * (focus.1 - ny) < radius * radius
}

/// The bounds every scheduler input obeys: positions and radius small
/// enough that squared distances fit comfortably in 64 bits.
pub open spec fn focus_bounded(focus: (i64, i64), radius: i64) -> bool {
    &&& -1_000_000_000 <= focus.0 <= 1_000_000_000
    &&& -1_000_000_000 <= focus.1 <= 1_000_000_000
    &&& 0 <= radius <= 1_000_000
}

fn clamp_i64(v: i64, lo: i64, hi: i64) -> (r: i64)
    requires
        lo <= hi,
    ensures
        r == spec_clamp(v as int, lo as int, hi as int),
{
    if v <= lo {
        lo
    } else if v >= hi {
        hi
    } else {
        v
    }
}

/// Whether a cell is within the load radius of the viewer.
pub fn in_range(focus: (i64, i64), radius: i64, p: (i32, i32)) -> (r: bool)
    requires
        focus_bounded(focus, radius),
    ensures
        r == spec_in_range(focus, radius, p),
{
    let lo_x = (p.0 as i64) * 16;
    let lo_y = (p.1 as i64) * 16;
    let nx = clamp_i64(focus.0, lo_x, lo_x + 16);
    let ny = clamp_i64(focus.1, lo_y, lo_y + 16);
    let dx = focus.0 - nx;
    let dy = focus.1 - ny;
    let adx = if dx < 0 { -dx } else { dx };
    let ady = if dy < 0 { -dy } else { dy };
    if adx > radius || ady > radius {
        proof {
            assert(dx * dx == adx * adx) by (nonlinear_arith)
                requires
                    adx == dx || adx == -dx,
            ;
            assert(dy * dy == ady * ady) by (nonlinear_arith)
                requires
                    ady == dy || ady == -dy,
            ;
            if adx > radius {
                assert(adx * adx >= radius * radius) by (nonlinear_arith)
                    requires
                        adx > radius,
                        radius >= 0,
                ;
            } else {
                assert(ady * ady >= radius * radius) by (nonlinear_arith)
                    requires
                        ady > radius,
                        radius >= 0,
                ;
            }
            assert(dx * dx >= 0 && dy * dy >= 0) by (nonlinear_arith);
        }
        false
    } else {
        proof {
            assert(dx * dx <= 1_000_000_000_000) by (nonlinear_arith)
                requires
                    -1_000_000 <= dx <= 1_000_000,
            ;
            assert(dy * dy <= 1_000_000_000_000) by (nonlinear_arith)
                requires
                    -1_000_000 <= dy <= 1_000_000,
            ;
            assert(radius * radius <= 1_000_000_000_000) by (nonlinear_arith)
                requires
                    0 <= radius <= 1_000_000,
            ;
            assert(dx * dx >= 0 && dy * dy >= 0) by (nonlinear_arith);
        }
        dx * dx + dy * dy < radius * radius
    }
}

/// Floor division by the cell size.
fn floor_div16(a: i64) -> (r: i64)
    requires
        -2_000_000_000 <= a <= 2_000_000_000,
    ensures
        16 * r <= a < 16 * r + 16,
{
    let shifted: u64 = (a + 0x10_0000_0000) as u64;
    let q = shifted / 16;
    proof {
        assert(16 * (q as int) <= shifted as int);
        assert((shifted as int) < 16 * (q as int) + 16);
    }
    (q as i64) - 0x1_0000_0000
}

/// The cell a live-scene key denotes.
pub open spec fn spec_unkey(k: u64) -> (i32, i32) {
    ((k as int / 0x1_0000_0000) as u32 as i32, (k as int % 0x1_0000_0000) as u32 as i32)
}

pub proof fn lemma_unkey_of_key(p: (i32, i32))
    ensures
        spec_unkey(spec_parcel_key(p)) == p,
{
    assert(spec_parcel_key(p) as int / 0x1_0000_0000 == p.0 as u32 as int
        && spec_parcel_key(p) as int % 0x1_0000_0000 == p.1 as u32 as int) by (nonlinear_arith);
    let p0 = p.0;
    let p1 = p.1;
    assert(p0 as u32 as i32 == p0 && p1 as u32 as i32 == p1) by (bit_vector);
    assert(p == (p.0, p.1));
}

/// The spatial scheduler's whole state: the pointer cache, the live scenes
/// (cell key to scene root handle), the realm-mandated content hashes, and
/// the cells of the one outstanding pointer lookup, if any.
pub struct SceneScheduler {
    pointers: ScenePointers,
    live: KvMap<u64>,
    realm_hashes: Vec<String>,
    in_flight: Option<Vec<(i32, i32)>>,
}

impl SceneScheduler {
    pub closed spec fn pairs(self) -> Map<(i32, i32), Result<Seq<char>, (i32, i32)>> {
        self.pointers.pairs()
    }

    pub closed spec fn live_map(self) -> Map<u64, u64> {
        self.live.as_map()
    }

    pub closed spec fn realm(self) -> Seq<Seq<char>> {
        hash_views(self.realm_hashes@)
    }

    pub closed spec fn inflight(self) -> Option<Seq<(i32, i32)>> {
        match self.in_flight {
            Some(v) => Some(v@),
            None => None,
        }
    }

    /// Every live scene sits at a cell that still resolves to a scene.
    pub closed spec fn inv(self) -> bool {
        &&& self.pointers.inv()
        &&& self.live.wf()
        &&& forall|k: u64| #[trigger] self.live_map().contains_key(k)
            ==> self.pairs().contains_key(spec_unkey(k))
                && self.pairs()[spec_unkey(k)] is Ok
                && spec_parcel_key(spec_unkey(k)) == k
    }

    pub fn new() -> (r: SceneScheduler)
        ensures
            r.inv(),
            r.pairs() == Map::<(i32, i32), Result<Seq<char>, (i32, i32)>>::empty(),
            r.live_map() == Map::<u64, u64>::empty(),
            r.realm() == Seq::<Seq<char>>::empty(),
            r.inflight() is None,
    {
        let r = SceneScheduler {
            pointers: ScenePointers::new(),
            live: KvMap::new(),
            realm_hashes: Vec::new(),
            in_flight: None,
        };
        proof {
            assert(r.realm() =~= Seq::<Seq<char>>::empty());
        }
        r
    }

    /// The cached resolution of a cell.
    pub fn pointer_of(&self, parcel: (i32, i32)) -> (r: Option<PointerResult>)
        ensures
            match r {
                Some(p) => self.pairs().contains_key(parcel) && p@ == self.pairs()[parcel],
                None => !self.pairs().contains_key(parcel),
            },
    {
        self.pointers.get(parcel)
    }

    /// The live scene root at a cell, if one is running or loading there.
    pub fn live_at(&self, parcel: (i32, i32)) -> (r: Option<u64>)
        requires
            self.inv(),
        ensures
            match r {
                Some(h) => self.live_map().contains_key(spec_parcel_key(parcel))
                    && self.live_map()[spec_parcel_key(parcel)] == h,
                None => !self.live_map().contains_key(spec_parcel_key(parcel)),
            },
    {
        match self.live.get(parcel_key(parcel)) {
            Some(h) => Some(*h),
            None => None,
        }
    }

    /// Record that a scene instance now occupies a cell.  The cell must
    /// resolve to a scene and must not already have a live instance.
    pub fn note_spawned(&mut self, parcel: (i32, i32), handle: u64)
        requires
            old(self).inv(),
            old(self).pairs().contains_key(parcel),
            old(self).pairs()[parcel] is Ok,
            !old(self).live_map().contains_key(spec_parcel_key(parcel)),
        ensures
            final(self).inv(),
            final(self).live_map() == old(self).live_map().insert(spec_parcel_key(parcel), handle),
            final(self).pairs() == old(self).pairs(),
            final(self).realm() == old(self).realm(),
            final(self).inflight() == old(self).inflight(),
    {
        let k = parcel_key(parcel);
        self.live.insert(k, handle);
        proof {
            lemma_unkey_of_key(parcel);
        }
    }

    /// Drop the live record of a cell (the instance was torn down outside
    /// the scheduler's own despawn decisions, for example on a load
    /// failure).
    pub fn note_unloaded(&mut self, parcel: (i32, i32))
        requires
            old(self).inv(),
        ensures
            final(self).inv(),
            final(self).live_map() == old(self).live_map().remove(spec_parcel_key(parcel)),
            final(self).pairs() == old(self).pairs(),
            final(self).realm() == old(self).realm(),
            final(self).inflight() == old(self).inflight(),
    {
        let k = parcel_key(parcel);
        let kept = retain_live_except(&self.live, k);
        self.live = kept;
        proof {
            assert(self.live_map() =~= old(self).live_map().remove(k));
        }
    }

    /// One realm-mandated content hash is satisfied: some cell resolves to
    /// it, a scene instance lives there, and that instance is running.
    pub open spec fn realm_entry_ready(self, running: Seq<u64>, h: Seq<char>) -> bool {
        exists|p: (i32, i32)|
            {
                &&& #[trigger] self.pairs().contains_key(p)
                &&& self.pairs()[p] == Ok::<Seq<char>, (i32, i32)>(h)
                &&& self.live_map().contains_key(spec_parcel_key(p))
                &&& running.contains(self.live_map()[spec_parcel_key(p)])
            }
    }

    /// Whether every realm-mandated scene is resolved, live and running.
    /// While this is false, distance-based scheduling is suspended: pinned
    /// scenes have priority over proximity scenes.
    pub open spec fn spec_realm_ready(self, running: Seq<u64>) -> bool {
        forall|i: int| 0 <= i < self.realm().len()
            ==> self.realm_entry_ready(running, #[trigger] self.realm()[i])
    }

    pub fn realm_ready(&self, running: &Vec<u64>) -> (r: bool)
        requires
            self.inv(),
        ensures
            r == self.spec_realm_ready(running@),
    {
        let n = self.realm_hashes.len();
        let mut i: usize = 0;
        while i < n
            invariant
                self.inv(),
                n == self.realm_hashes@.len(),
                i <= n,
                forall|j: int| 0 <= j < i
                    ==> self.realm_entry_ready(running@, #[trigger] self.realm()[j]),
            decreases n - i,
        {
            let hash = &self.realm_hashes[i];
            proof {
                assert(self.realm()[i as int] == hash@);
            }
            match self.pointers.hash_parcel(hash) {
                Some(p) => {
                    match self.live.get(parcel_key(p)) {
                        Some(h) => {
                            if !crate::crdt::vec_contains_u64(running, *h) {
                                proof {
                                    lemma_not_ready_witness(*self, running@, hash@, p);
                                }
                                return false;
                            }
                            proof {
                                assert(self.realm_entry_ready(running@, hash@));
                            }
                        }
                        None => {
                            proof {
                                lemma_not_ready_witness(*self, running@, hash@, p);
                            }
                            return false;
                        }
                    }
                }
                None => {
                    proof {
                        assert(!self.realm_entry_ready(running@, hash@));
                    }
                    return false;
                }
            }
            i += 1;
        }
        proof {
            assert(self.realm().len() == self.realm_hashes@.len());
        }
        true
    }
}

/// A cell the scheduler keeps alive: still within the load radius, or
/// resolved to one of the realm-mandated scenes.
pub open spec fn spec_keep(s: SceneScheduler, focus: (i64, i64), radius: i64, p: (i32, i32)) -> bool {
    spec_in_range(focus, radius, p)
        || (s.pairs().contains_key(p) && s.pairs()[p] is Ok && s.realm().contains(s.pairs()[p]->Ok_0))
}

impl SceneScheduler {
    /// Classify every cell within the load radius: cells with a live scene
    /// are left alone, cells resolved to a scene not yet live become spawn
    /// requests, cells with a recorded absence are skipped, and unresolved
    /// cells are gathered for a pointer lookup.
    fn collect_range(&self, focus: (i64, i64), radius: i64) -> (r: (Vec<SpawnRequest>, Vec<(i32, i32)>))
        requires
            self.inv(),
            focus_bounded(focus, radius),
        ensures
            forall|i: int| 0 <= i < r.0@.len() ==> {
                let s = #[trigger] r.0@[i];
                &&& spec_in_range(focus, radius, s.parcel)
                &&& self.pairs().contains_key(s.parcel)
                &&& self.pairs()[s.parcel] == Ok::<Seq<char>, (i32, i32)>(s.hash@)
                &&& !self.live_map().contains_key(spec_parcel_key(s.parcel))
            },
            forall|p: (i32, i32)| spec_in_range(focus, radius, p)
                && #[trigger] self.pairs().contains_key(p) && self.pairs()[p] is Ok
                && !self.live_map().contains_key(spec_parcel_key(p))
                ==> exists|i: int| 0 <= i < r.0@.len() && (#[trigger] r.0@[i]).parcel == p,
            forall|i: int, j: int| 0 <= i < j < r.0@.len()
                ==> (#[trigger] r.0@[i]).parcel != (#[trigger] r.0@[j]).parcel,
            forall|i: int, j: int| 0 <= i < j < r.0@.len()
                ==> (#[trigger] r.0@[i]).hash@ != (#[trigger] r.0@[j]).hash@,
            forall|i: int| 0 <= i < r.1@.len() ==> {
                let p = #[trigger] r.1@[i];
                &&& spec_in_range(focus, radius, p)
                &&& !self.pairs().contains_key(p)
                &&& !self.live_map().contains_key(spec_parcel_key(p))
            },
            forall|p: (i32, i32)| #[trigger] spec_in_range(focus, radius, p)
                && !self.pairs().contains_key(p)
                && !self.live_map().contains_key(spec_parcel_key(p))
                ==> r.1@.contains(p),
            forall|i: int, j: int| 0 <= i < j < r.1@.len()
                ==> (#[trigger] r.1@[i]) != (#[trigger] r.1@[j]),
    {
        let x_min = floor_div16(focus.0 - radius);
        let x_max = floor_div16(focus.0 + radius);
        let y_min = floor_div16(focus.1 - radius);
        let y_max = floor_div16(focus.1 + radius);
        let mut spawn: Vec<SpawnRequest> = Vec::new();
        let mut required: Vec<(i32, i32)> = Vec::new();
        let mut px = x_min;
        while px <= x_max
            invariant
                self.inv(),
                focus_bounded(focus, radius),
                16 * x_min <= focus.0 - radius < 16 * x_min + 16,
                16 * x_max <= focus.0 + radius < 16 * x_max + 16,
                16 * y_min <= focus.1 - radius < 16 * y_min + 16,
                16 * y_max <= focus.1 + radius < 16 * y_max + 16,
                x_min <= px <= x_max + 1,
                -200_000_000 <= px <= 200_000_000,
                forall|i: int| 0 <= i < spawn@.len() ==> {
                    let s = #[trigger] spawn@[i];
                    &&& spec_in_range(focus, radius, s.parcel)
                    &&& self.pairs().contains_key(s.parcel)
                    &&& self.pairs()[s.parcel] == Ok::<Seq<char>, (i32, i32)>(s.hash@)
                    &&& !self.live_map().contains_key(spec_parcel_key(s.parcel))
                    &&& x_min <= s.parcel.0 < px
                },
                forall|p: (i32, i32)| x_min <= p.0 < px && spec_in_range(focus, radius, p)
                    && #[trigger] self.pairs().contains_key(p) && self.pairs()[p] is Ok
                    && !self.live_map().contains_key(spec_parcel_key(p))
                    ==> exists|i: int| 0 <= i < spawn@.len() && (#[trigger] spawn@[i]).parcel == p,
                forall|i: int, j: int| 0 <= i < j < spawn@.len()
                    ==> (#[trigger] spawn@[i]).parcel != (#[trigger] spawn@[j]).parcel,
                forall|i: int| 0 <= i < required@.len() ==> {
                    let p = #[trigger] required@[i];
                    &&& spec_in_range(focus, radius, p)
                    &&& !self.pairs().contains_key(p)
                    &&& !self.live_map().contains_key(spec_parcel_key(p))
                    &&& x_min <= p.0 < px
                },
                forall|p: (i32, i32)| x_min <= p.0 < px && #[trigger] spec_in_range(focus, radius, p)
                    && !self.pairs().contains_key(p)
                    && !self.live_map().contains_key(spec_parcel_key(p))
                    ==> required@.contains(p),
                forall|i: int, j: int| 0 <= i < j < required@.len()
                    ==> (#[trigger] required@[i]) != (#[trigger] required@[j]),
            decreases x_max + 1 - px,
        {
            let mut py = y_min;
            while py <= y_max
                invariant
                    self.inv(),
                    focus_bounded(focus, radius),
                    16 * x_min <= focus.0 - radius < 16 * x_min + 16,
                    16 * x_max <= focus.0 + radius < 16 * x_max + 16,
                    16 * y_min <= focus.1 - radius < 16 * y_min + 16,
                    16 * y_max <= focus.1 + radius < 16 * y_max + 16,
                    x_min <= px <= x_max,
                    y_min <= py <= y_max + 1,
                    -200_000_000 <= px <= 200_000_000,
                    -200_000_000 <= py <= 200_000_000,
                    forall|i: int| 0 <= i < spawn@.len() ==> {
                        let s = #[trigger] spawn@[i];
                        &&& spec_in_range(focus, radius, s.parcel)
                        &&& self.pairs().contains_key(s.parcel)
                        &&& self.pairs()[s.parcel] == Ok::<Seq<char>, (i32, i32)>(s.hash@)
                        &&& !self.live_map().contains_key(spec_parcel_key(s.parcel))
                        &&& (s.parcel.0 < px || (s.parcel.0 == px && s.parcel.1 < py))
                        &&& x_min <= s.parcel.0
                    },
                    forall|p: (i32, i32)| (x_min <= p.0 < px || (p.0 == px && y_min <= p.1 < py))
                        && spec_in_range(focus, radius, p)
                        && #[trigger] self.pairs().contains_key(p) && self.pairs()[p] is Ok
                        && !self.live_map().contains_key(spec_parcel_key(p))
                        ==> exists|i: int| 0 <= i < spawn@.len() && (#[trigger] spawn@[i]).parcel == p,
                    forall|i: int, j: int| 0 <= i < j < spawn@.len()
                        ==> (#[trigger] spawn@[i]).parcel != (#[trigger] spawn@[j]).parcel,
                    forall|i: int| 0 <= i < required@.len() ==> {
                        let p = #[trigger] required@[i];
                        &&& spec_in_range(focus, radius, p)
                        &&& !self.pairs().contains_key(p)
                        &&& !self.live_map().contains_key(spec_parcel_key(p))
                        &&& (p.0 < px || (p.0 == px && p.1 < py))
                        &&& x_min <= p.0
                    },
                    forall|p: (i32, i32)| (x_min <= p.0 < px || (p.0 == px && y_min <= p.1 < py))
                        && #[trigger] spec_in_range(focus, radius, p)
                        && !self.pairs().contains_key(p)
                        && !self.live_map().contains_key(spec_parcel_key(p))
                        ==> required@.contains(p),
                    forall|i: int, j: int| 0 <= i < j < required@.len()
                        ==> (#[trigger] required@[i]) != (#[trigger] required@[j]),
                decreases y_max + 1 - py,
            {
                let p: (i32, i32) = (px as i32, py as i32);
                let ghost spawn_before = spawn@;
                let ghost required_before = required@;
                if in_range(focus, radius, p) {
                    let k = parcel_key(p);
                    if !self.live.contains(k) {
                        match self.pointers.get(p) {
                            Some(PointerResult::Exists(hash)) => {
                                spawn.push(SpawnRequest { parcel: p, hash });
                            }
                            Some(PointerResult::Nothing(_, _)) => {}
                            None => {
                                required.push(p);
                            }
                        }
                    }
                }
                py = py + 1;
                proof {
                    assert forall|q: (i32, i32)|
                        (x_min <= q.0 < px || (q.0 == px && y_min <= q.1 < py))
                        && spec_in_range(focus, radius, q)
                        && #[trigger] self.pairs().contains_key(q) && self.pairs()[q] is Ok
                        && !self.live_map().contains_key(spec_parcel_key(q))
                        implies exists|i: int| 0 <= i < spawn@.len()
                            && (#[trigger] spawn@[i]).parcel == q by {
                        if q.0 == px && q.1 == py - 1 {
                            assert(q == p);
                            assert(spawn@.last().parcel == q);
                        } else {
                            assert(exists|i: int| 0 <= i < spawn_before.len()
                                && (#[trigger] spawn_before[i]).parcel == q);
                            let i = choose|i: int| 0 <= i < spawn_before.len()
                                && (#[trigger] spawn_before[i]).parcel == q;
                            assert(spawn@[i].parcel == q);
                        }
                    }
                    assert forall|q: (i32, i32)|
                        (x_min <= q.0 < px || (q.0 == px && y_min <= q.1 < py))
                        && #[trigger] spec_in_range(focus, radius, q)
                        && !self.pairs().contains_key(q)
                        && !self.live_map().contains_key(spec_parcel_key(q))
                        implies required@.contains(q) by {
                        if q.0 == px && q.1 == py - 1 {
                            assert(q == p);
                            assert(required@.last() == q);
                        } else {
                            assert(required_before.contains(q));
                            let i = choose|i: int| 0 <= i < required_before.len()
                                && required_before[i] == q;
                            assert(required@[i] == q);
                        }
                    }
                }
            }
            proof {
                assert forall|q: (i32, i32)| x_min <= q.0 <= px && spec_in_range(focus, radius, q)
                    && #[trigger] self.pairs().contains_key(q) && self.pairs()[q] is Ok
                    && !self.live_map().contains_key(spec_parcel_key(q))
                    implies exists|i: int| 0 <= i < spawn@.len()
                        && (#[trigger] spawn@[i]).parcel == q by {
                    if q.0 == px {
                        lemma_in_range_box(focus, radius, q, x_min, x_max, y_min, y_max);
                    }
                }
                assert forall|q: (i32, i32)| x_min <= q.0 <= px
                    && #[trigger] spec_in_range(focus, radius, q)
                    && !self.pairs().contains_key(q)
                    && !self.live_map().contains_key(spec_parcel_key(q))
                    implies required@.contains(q) by {
                    if q.0 == px {
                        lemma_in_range_box(focus, radius, q, x_min, x_max, y_min, y_max);
                    }
                }
            }
            px = px + 1;
        }
        proof {
            assert forall|p: (i32, i32)| spec_in_range(focus, radius, p)
                && #[trigger] self.pairs().contains_key(p) && self.pairs()[p] is Ok
                && !self.live_map().contains_key(spec_parcel_key(p))
                implies exists|i: int| 0 <= i < spawn@.len()
                    && (#[trigger] spawn@[i]).parcel == p by {
                lemma_in_range_box(focus, radius, p, x_min, x_max, y_min, y_max);
            }
            assert forall|p: (i32, i32)| #[trigger] spec_in_range(focus, radius, p)
                && !self.pairs().contains_key(p)
                && !self.live_map().contains_key(spec_parcel_key(p))
                implies required@.contains(p) by {
                lemma_in_range_box(focus, radius, p, x_min, x_max, y_min, y_max);
            }
            assert forall|i: int, j: int| 0 <= i < j < spawn@.len()
                implies (#[trigger] spawn@[i]).hash@ != (#[trigger] spawn@[j]).hash@ by {
                assert(self.pairs()[spawn@[i].parcel]
                    == Ok::<Seq<char>, (i32, i32)>(spawn@[i].hash@));
                assert(self.pairs()[spawn@[j].parcel]
                    == Ok::<Seq<char>, (i32, i32)>(spawn@[j].hash@));
                assert(spawn@[i].parcel != spawn@[j].parcel);
            }
        }
        (spawn, required)
    }
}

/// A cell within the load radius lies inside the floor-divided bounding
/// box of the radius around the viewer.
proof fn lemma_in_range_box(
    focus: (i64, i64),
    radius: i64,
    p: (i32, i32),
    x_min: i64,
    x_max: i64,
    y_min: i64,
    y_max: i64,
)
    requires
        focus_bounded(focus, radius),
        spec_in_range(focus, radius, p),
        16 * x_min <= focus.0 - radius < 16 * x_min + 16,
        16 * x_max <= focus.0 + radius < 16 * x_max + 16,
        16 * y_min <= focus.1 - radius < 16 * y_min + 16,
        16 * y_max <= focus.1 + radius < 16 * y_max + 16,
    ensures
        x_min <= p.0 <= x_max,
        y_min <= p.1 <= y_max,
{
    let nx = spec_clamp(focus.0 as int, p.0 as int * 16, p.0 as int * 16 + 16);
    let ny = spec_clamp(focus.1 as int, p.1 as int * 16, p.1 as int * 16 + 16);
    let dx = focus.0 - nx;
    let dy = focus.1 - ny;
    assert(dx * dx >= 0 && dy * dy >= 0) by (nonlinear_arith);
    assert(dx * dx + dy * dy < radius * radius);
    if p.0 < x_min {
        assert(p.0 as int * 16 + 16 <= 16 * x_min);
        assert(nx <= focus.0 - radius);
        assert(dx >= radius);
        assert(dx * dx >= radius * radius) by (nonlinear_arith)
            requires
                dx >= radius,
                radius >= 0,
        ;
    }
    if p.0 > x_max {
        assert(p.0 as int * 16 >= 16 * x_max + 16);
        assert(nx > focus.0 + radius);
        assert(-dx > radius);
        assert(dx * dx > radius * radius) by (nonlinear_arith)
            requires
                -dx > radius,
                radius >= 0,
        ;
    }
    if p.1 < y_min {
        assert(p.1 as int * 16 + 16 <= 16 * y_min);
        assert(ny <= focus.1 - radius);
        assert(dy >= radius);
        assert(dy * dy >= radius * radius) by (nonlinear_arith)
            requires
                dy >= radius,
                radius >= 0,
        ;
    }
    if p.1 > y_max {
        assert(p.1 as int * 16 >= 16 * y_max + 16);
        assert(ny > focus.1 + radius);
        assert(-dy > radius);
        assert(dy * dy > radius * radius) by (nonlinear_arith)
            requires
                -dy > radius,
                radius >= 0,
        ;
    }
}

/// The cell a live-scene key denotes, as a value.
fn unkey(k: u64) -> (r: (i32, i32))
    ensures
        r == spec_unkey(k),
{
    ((k / 0x1_0000_0000) as u32 as i32, (k % 0x1_0000_0000) as u32 as i32)
}

/// A copy of a cell list.
fn copy_parcels(v: &Vec<(i32, i32)>) -> (r: Vec<(i32, i32)>)
    ensures
        r@ == v@,
{
    let mut r: Vec<(i32, i32)> = Vec::new();
    let mut i: usize = 0;
    let n = v.len();
    while i < n
        invariant
            n == v@.len(),
            i <= n,
            r@ == v@.take(i as int),
        decreases n - i,
    {
        r.push(v[i]);
        proof {
            assert(r@ =~= v@.take(i as int + 1));
        }
        i += 1;
    }
    proof {
        assert(v@.take(n as int) =~= v@);
    }
    r
}

impl SceneScheduler {
    /// A handle the pruning pass is entitled to despawn: it belongs to a
    /// live entry that is neither in range nor realm-mandated.
    pub open spec fn is_pruned_handle(self, focus: (i64, i64), radius: i64, h: u64) -> bool {
        exists|k: u64| #[trigger] self.live_map().contains_key(k)
            && !spec_keep(self, focus, radius, spec_unkey(k))
            && self.live_map()[k] == h
    }

    /// Tear down the live scenes the scheduler no longer keeps: those out
    /// of range and not realm-mandated.  Returns the handles to despawn.
    fn prune_live(&mut self, focus: (i64, i64), radius: i64) -> (despawn: Vec<u64>)
        requires
            old(self).inv(),
            focus_bounded(focus, radius),
        ensures
            final(self).inv(),
            final(self).pairs() == old(self).pairs(),
            final(self).realm() == old(self).realm(),
            final(self).inflight() == old(self).inflight(),
            final(self).live_map() == Map::new(
                |k: u64| old(self).live_map().contains_key(k)
                    && spec_keep(*old(self), focus, radius, spec_unkey(k)),
                |k: u64| old(self).live_map()[k],
            ),
            forall|k: u64| #[trigger] old(self).live_map().contains_key(k)
                && !spec_keep(*old(self), focus, radius, spec_unkey(k))
                ==> despawn@.contains(old(self).live_map()[k]),
            forall|i: int| 0 <= i < despawn@.len()
                ==> old(self).is_pruned_handle(focus, radius, #[trigger] despawn@[i]),
    {
        let mut kept: KvMap<u64> = KvMap::new();
        let mut despawn: Vec<u64> = Vec::new();
        let mut i: usize = 0;
        let n = self.live.len();
        while i < n
            invariant
                self.inv(),
                *self == *old(self),
                focus_bounded(focus, radius),
                kept.wf(),
                n == self.live.entries().len(),
                i <= n,
                forall|k: u64| #[trigger] kept.as_map().contains_key(k)
                    ==> self.live_map().contains_key(k)
                        && kept.as_map()[k] == self.live_map()[k]
                        && spec_keep(*self, focus, radius, spec_unkey(k))
                        && (exists|a: int| 0 <= a < i && (#[trigger] self.live.entries()[a]).0 == k),
                forall|a: int| 0 <= a < i
                    && spec_keep(*self, focus, radius, spec_unkey((#[trigger] self.live.entries()[a]).0))
                    ==> kept.as_map().contains_key(self.live.entries()[a].0),
                forall|a: int| 0 <= a < i
                    && !spec_keep(*self, focus, radius, spec_unkey((#[trigger] self.live.entries()[a]).0))
                    ==> despawn@.contains(self.live.entries()[a].1),
                forall|j: int| 0 <= j < despawn@.len()
                    ==> self.is_pruned_handle(focus, radius, #[trigger] despawn@[j]),
            decreases n - i,
        {
            let entry = self.live.entry_at(i);
            let k = entry.0;
            let h = entry.1;
            proof {
                lemma_index_unique(self.live.entries(), i as int);
            }
            let p = unkey(k);
            let keep_it = if in_range(focus, radius, p) {
                true
            } else {
                match self.pointers.get(p) {
                    Some(PointerResult::Exists(hash)) => contains_string(&self.realm_hashes, &hash),
                    _ => false,
                }
            };
            proof {
                assert(keep_it == spec_keep(*self, focus, radius, p));
            }
            let ghost despawn_before = despawn@;
            if keep_it {
                proof {
                    assert(!kept.as_map().contains_key(k)) by {
                        if kept.as_map().contains_key(k) {
                            let a = choose|a: int| 0 <= a < i
                                && (#[trigger] self.live.entries()[a]).0 == k;
                        }
                    }
                }
                kept.insert(k, h);
            } else {
                despawn.push(h);
                proof {
                    assert(self.live_map().contains_key(k)
                        && self.live_map()[k] == h);
                    assert(self.is_pruned_handle(focus, radius, h));
                    assert(despawn@[despawn@.len() - 1] == h);
                    assert(despawn@.contains(h));
                    assert forall|a: int| 0 <= a <= i as int
                        && !spec_keep(*self, focus, radius, spec_unkey((#[trigger] self.live.entries()[a]).0))
                        implies despawn@.contains(self.live.entries()[a].1) by {
                        if a < i as int {
                            assert(despawn_before.contains(self.live.entries()[a].1));
                            let w = choose|w: int| 0 <= w < despawn_before.len()
                                && despawn_before[w] == self.live.entries()[a].1;
                            assert(despawn@[w] == self.live.entries()[a].1);
                        } else {
                            assert(self.live.entries()[a].1 == h);
                        }
                    }
                    assert forall|j: int| 0 <= j < despawn@.len()
                        implies self.is_pruned_handle(focus, radius, #[trigger] despawn@[j]) by {
                        if j < despawn_before.len() {
                            assert(despawn@[j] == despawn_before[j]);
                        } else {
                            assert(despawn@[j] == h);
                        }
                    }
                }
            }
            i += 1;
        }
        self.live = kept;
        proof {
            assert forall|k: u64| old(self).live_map().contains_key(k)
                && spec_keep(*old(self), focus, radius, spec_unkey(k))
                implies #[trigger] self.live.as_map().contains_key(k) by {
                let a = index_of_key(old(self).live.entries(), k);
                lemma_index_unique(old(self).live.entries(), a);
            }
            assert forall|k: u64| #[trigger] old(self).live_map().contains_key(k)
                && !spec_keep(*old(self), focus, radius, spec_unkey(k))
                implies despawn@.contains(old(self).live_map()[k]) by {
                let a = index_of_key(old(self).live.entries(), k);
                lemma_index_unique(old(self).live.entries(), a);
            }
            assert(self.live_map() =~= Map::new(
                |k: u64| old(self).live_map().contains_key(k)
                    && spec_keep(*old(self), focus, radius, spec_unkey(k)),
                |k: u64| old(self).live_map()[k],
            ));
        }
        despawn
    }

    /// One scheduling pass.  While any realm-mandated scene is unresolved or
    /// not yet running, nothing is scheduled at all: pinned scenes have
    /// priority over proximity scenes.  Otherwise cells in range with a
    /// resolved scene and no live instance become spawn requests, live
    /// scenes neither in range nor realm-mandated are torn down, and, when
    /// no lookup is outstanding, the unresolved cells in range are batched
    /// into one pointer request.  A cell with a cached resolution, positive
    /// or negative, is never requested again.
    pub fn tick(&mut self, focus: (i64, i64), radius: i64, running: &Vec<u64>) -> (r: TickActions)
        requires
            old(self).inv(),
            focus_bounded(focus, radius),
        ensures
            final(self).inv(),
            final(self).pairs() == old(self).pairs(),
            final(self).realm() == old(self).realm(),
            !old(self).spec_realm_ready(running@) ==> *final(self) == *old(self)
                && r.spawn@.len() == 0 && r.despawn@.len() == 0 && r.request is None,
            old(self).spec_realm_ready(running@) ==> ({
                &&& forall|i: int| 0 <= i < r.spawn@.len() ==> {
                    let s = #[trigger] r.spawn@[i];
                    &&& spec_in_range(focus, radius, s.parcel)
                    &&& old(self).pairs().contains_key(s.parcel)
                    &&& old(self).pairs()[s.parcel] == Ok::<Seq<char>, (i32, i32)>(s.hash@)
                    &&& !old(self).live_map().contains_key(spec_parcel_key(s.parcel))
                }
                &&& forall|p: (i32, i32)| spec_in_range(focus, radius, p)
                    && #[trigger] old(self).pairs().contains_key(p) && old(self).pairs()[p] is Ok
                    && !old(self).live_map().contains_key(spec_parcel_key(p))
                    ==> exists|i: int| 0 <= i < r.spawn@.len() && (#[trigger] r.spawn@[i]).parcel == p
                &&& forall|i: int, j: int| 0 <= i < j < r.spawn@.len()
                    ==> (#[trigger] r.spawn@[i]).parcel != (#[trigger] r.spawn@[j]).parcel
                &&& forall|i: int, j: int| 0 <= i < j < r.spawn@.len()
                    ==> (#[trigger] r.spawn@[i]).hash@ != (#[trigger] r.spawn@[j]).hash@
                &&& final(self).live_map() == Map::new(
                    |k: u64| old(self).live_map().contains_key(k)
                        && spec_keep(*old(self), focus, radius, spec_unkey(k)),
                    |k: u64| old(self).live_map()[k],
                )
                &&& forall|k: u64| #[trigger] old(self).live_map().contains_key(k)
                    && !spec_keep(*old(self), focus, radius, spec_unkey(k))
                    ==> r.despawn@.contains(old(self).live_map()[k])
                &&& forall|i: int| 0 <= i < r.despawn@.len()
                    ==> old(self).is_pruned_handle(focus, radius, #[trigger] r.despawn@[i])
                &&& match r.request {
                    Some(ps) => {
                        &&& old(self).inflight() is None
                        &&& final(self).inflight() == Some(ps@)
                        &&& ps@.len() > 0
                        &&& forall|i: int| 0 <= i < ps@.len() ==> {
                            let p = #[trigger] ps@[i];
                            &&& spec_in_range(focus, radius, p)
                            &&& !old(self).pairs().contains_key(p)
                            &&& !old(self).live_map().contains_key(spec_parcel_key(p))
                        }
                        &&& forall|p: (i32, i32)| #[trigger] spec_in_range(focus, radius, p)
                            && !old(self).pairs().contains_key(p)
                            && !old(self).live_map().contains_key(spec_parcel_key(p))
                            ==> ps@.contains(p)
                        &&& forall|i: int, j: int| 0 <= i < j < ps@.len()
                            ==> (#[trigger] ps@[i]) != (#[trigger] ps@[j])
                    }
                    None => {
                        &&& final(self).inflight() == old(self).inflight()
                        &&& (old(self).inflight() is Some
                            || forall|p: (i32, i32)| !(#[trigger] spec_in_range(focus, radius, p)
                                && !old(self).pairs().contains_key(p)
                                && !old(self).live_map().contains_key(spec_parcel_key(p))))
                    }
                }
            }),
    {
        if !self.realm_ready(running) {
            return TickActions { spawn: Vec::new(), despawn: Vec::new(), request: None };
        }
        let (spawn, required) = self.collect_range(focus, radius);
        let despawn = self.prune_live(focus, radius);
        let request = if required.len() > 0 && self.in_flight.is_none() {
            let copy = copy_parcels(&required);
            self.in_flight = Some(copy);
            Some(required)
        } else {
            None
        };
        proof {
            if required@.len() == 0 {
                assert forall|p: (i32, i32)| !(#[trigger] spec_in_range(focus, radius, p)
                    && !old(self).pairs().contains_key(p)
                    && !old(self).live_map().contains_key(spec_parcel_key(p))) by {
                    if spec_in_range(focus, radius, p)
                        && !old(self).pairs().contains_key(p)
                        && !old(self).live_map().contains_key(spec_parcel_key(p)) {
                        assert(required@.contains(p));
                    }
                }
            }
        }
        TickActions { spawn, despawn, request }
    }
}

/// The hashes of a realm's scene list.
pub open spec fn scene_hashes(scenes: Seq<(String, String)>) -> Seq<Seq<char>> {
    scenes.map_values(|e: (String, String)| e.0@)
}

/// Whether some cell of the map resolves to the hash.
pub open spec fn pairs_has_hash(m: Map<(i32, i32), Result<Seq<char>, (i32, i32)>>, h: Seq<char>) -> bool {
    exists|l: (i32, i32)| #[trigger] m.contains_key(l) && m[l] == Ok::<Seq<char>, (i32, i32)>(h)
}

/// Whether a string is the urn of a listed scene whose hash the map does
/// not resolve.
pub open spec fn is_unresolved_urn(
    m: Map<(i32, i32), Result<Seq<char>, (i32, i32)>>,
    scenes: Seq<(String, String)>,
    u: Seq<char>,
) -> bool {
    exists|j: int| 0 <= j < scenes.len() && u == (#[trigger] scenes[j]).1@
        && !pairs_has_hash(m, scenes[j].0@)
}

impl SceneScheduler {
    /// Adopt a new realm: its scene list as `(content hash, urn)` pairs.
    /// Pointers and live scenes not in the new realm's manifest are purged
    /// first; any outstanding lookup is forgotten; the urns of the mandated
    /// scenes that are not already resolved are returned so the caller can
    /// eagerly request them, regardless of distance.
    pub fn realm_change(&mut self, realm_scenes: &Vec<(String, String)>) -> (to_load: Vec<String>)
        requires
            old(self).inv(),
        ensures
            final(self).inv(),
            final(self).realm() == scene_hashes(realm_scenes@),
            final(self).pairs() == Map::new(
                |k: (i32, i32)| old(self).pairs().contains_key(k)
                    && (old(self).pairs()[k]) is Ok
                    && scene_hashes(realm_scenes@).contains(old(self).pairs()[k]->Ok_0),
                |k: (i32, i32)| old(self).pairs()[k],
            ),
            final(self).live_map() == Map::new(
                |k: u64| old(self).live_map().contains_key(k)
                    && final(self).pairs().contains_key(spec_unkey(k)),
                |k: u64| old(self).live_map()[k],
            ),
            final(self).inflight() is None,
            forall|i: int| 0 <= i < to_load@.len()
                ==> is_unresolved_urn(final(self).pairs(), realm_scenes@, (#[trigger] to_load@[i])@),
            forall|j: int| 0 <= j < realm_scenes@.len()
                && !pairs_has_hash(final(self).pairs(), (#[trigger] realm_scenes@[j]).0@)
                ==> exists|i: int| 0 <= i < to_load@.len()
                    && (#[trigger] to_load@[i])@ == realm_scenes@[j].1@,
    {
        let n = realm_scenes.len();
        let mut hashes: Vec<String> = Vec::new();
        let mut i: usize = 0;
        while i < n
            invariant
                n == realm_scenes@.len(),
                i <= n,
                hashes@.len() == i,
                forall|j: int| 0 <= j < i ==> (#[trigger] hashes@[j])@ == realm_scenes@[j].0@,
            decreases n - i,
        {
            hashes.push(realm_scenes[i].0.clone());
            i += 1;
        }
        proof {
            assert(crate::pointers::hash_views(hashes@) =~= scene_hashes(realm_scenes@));
        }
        self.pointers.retain_hashes(&hashes);

        let mut kept: KvMap<u64> = KvMap::new();
        let mut i: usize = 0;
        let n2 = self.live.len();
        while i < n2
            invariant
                self.live.wf(),
                kept.wf(),
                n2 == self.live.entries().len(),
                i <= n2,
                forall|k: u64| #[trigger] kept.as_map().contains_key(k)
                    ==> self.live.as_map().contains_key(k)
                        && kept.as_map()[k] == self.live.as_map()[k]
                        && self.pointers.pairs().contains_key(spec_unkey(k))
                        && (exists|a: int| 0 <= a < i && (#[trigger] self.live.entries()[a]).0 == k),
                forall|a: int| 0 <= a < i
                    && self.pointers.pairs().contains_key(spec_unkey((#[trigger] self.live.entries()[a]).0))
                    ==> kept.as_map().contains_key(self.live.entries()[a].0),
            decreases n2 - i,
        {
            let entry = self.live.entry_at(i);
            let k = entry.0;
            let h = entry.1;
            proof {
                lemma_index_unique(self.live.entries(), i as int);
            }
            let p = unkey(k);
            if self.pointers.contains(p) {
                proof {
                    assert(!kept.as_map().contains_key(k)) by {
                        if kept.as_map().contains_key(k) {
                            let a = choose|a: int| 0 <= a < i
                                && (#[trigger] self.live.entries()[a]).0 == k;
                        }
                    }
                }
                kept.insert(k, h);
            }
            i += 1;
        }
        let ghost old_live = self.live.as_map();
        self.live = kept;

        self.realm_hashes = hashes;
        self.in_flight = None;
        proof {
            assert forall|k: u64| #[trigger] self.live_map().contains_key(k)
                implies self.pairs().contains_key(spec_unkey(k))
                    && self.pairs()[spec_unkey(k)] is Ok
                    && spec_parcel_key(spec_unkey(k)) == k by {
                assert(old(self).live_map().contains_key(k));
            }
        }

        let mut to_load: Vec<String> = Vec::new();
        let mut i: usize = 0;
        while i < n
            invariant
                self.inv(),
                n == realm_scenes@.len(),
                i <= n,
                forall|a: int| 0 <= a < to_load@.len()
                    ==> is_unresolved_urn(self.pairs(), realm_scenes@, (#[trigger] to_load@[a])@),
                forall|j: int| 0 <= j < i
                    && !pairs_has_hash(self.pairs(), (#[trigger] realm_scenes@[j]).0@)
                    ==> exists|a: int| 0 <= a < to_load@.len()
                        && (#[trigger] to_load@[a])@ == realm_scenes@[j].1@,
            decreases n - i,
        {
            let hash = &realm_scenes[i].0;
            let ghost before = to_load@;
            if !self.pointers.contains_hash(hash) {
                proof {
                    assert(!pairs_has_hash(self.pairs(), hash@)) by {
                        if pairs_has_hash(self.pairs(), hash@) {
                            let l = choose|l: (i32, i32)| #[trigger] self.pairs().contains_key(l)
                                && self.pairs()[l] == Ok::<Seq<char>, (i32, i32)>(hash@);
                        }
                    }
                }
                to_load.push(realm_scenes[i].1.clone());
                proof {
                    assert(to_load@[to_load@.len() - 1]@ == realm_scenes@[i as int].1@);
                    assert(is_unresolved_urn(self.pairs(), realm_scenes@, realm_scenes@[i as int].1@));
                }
            } else {
                proof {
                    assert(pairs_has_hash(self.pairs(), hash@));
                }
            }
            proof {
                assert forall|j: int| 0 <= j <= i as int
                    && !pairs_has_hash(self.pairs(), (#[trigger] realm_scenes@[j]).0@)
                    implies exists|a: int| 0 <= a < to_load@.len()
                        && (#[trigger] to_load@[a])@ == realm_scenes@[j].1@ by {
                    if j < i as int {
                        let a = choose|a: int| 0 <= a < before.len()
                            && (#[trigger] before[a])@ == realm_scenes@[j].1@;
                        assert(to_load@[a]@ == realm_scenes@[j].1@);
                    }
                }
                assert forall|a: int| 0 <= a < to_load@.len()
                    implies is_unresolved_urn(self.pairs(), realm_scenes@, (#[trigger] to_load@[a])@) by {
                    if a < before.len() {
                        assert(to_load@[a] == before[a]);
                    } else {
                        assert(to_load@[a]@ == realm_scenes@[i as int].1@);
                    }
                }
            }
            i += 1;
        }
        proof {
            assert(self.live_map() =~= Map::new(
                |k: u64| old(self).live_map().contains_key(k)
                    && self.pairs().contains_key(spec_unkey(k)),
                |k: u64| old(self).live_map()[k],
            ));
        }
        to_load
    }
}

impl SceneScheduler {
    /// Record a scene definition that resolved outside the pointer lookup
    /// path (a realm-mandated scene loaded by urn), giving the cells the
    /// definition lists.  The scene is recorded at the first listed cell:
    /// that cell resolves to the content hash and holds the live instance.
    /// The bijective pointer cache admits one cell per hash, and every live
    /// cell must resolve, so a scene spanning several cells is tracked at
    /// one of them; the others stay uncached and in range they are treated
    /// like any unresolved cell.  The hash must be new to the cache and the
    /// first listed cell must be vacant.
    pub fn note_scene_defined(&mut self, parcels: &Vec<(i32, i32)>, hash: String, handle: u64)
        requires
            old(self).inv(),
            parcels@.len() > 0,
            !old(self).pairs().contains_key(parcels@[0]),
            !pairs_has_hash(old(self).pairs(), hash@),
            !old(self).live_map().contains_key(spec_parcel_key(parcels@[0])),
        ensures
            final(self).inv(),
            final(self).pairs() == old(self).pairs().insert(parcels@[0], Ok::<Seq<char>, (i32, i32)>(hash@)),
            final(self).live_map() == old(self).live_map().insert(spec_parcel_key(parcels@[0]), handle),
            final(self).realm() == old(self).realm(),
            final(self).inflight() == old(self).inflight(),
    {
        let parcel = parcels[0];
        let ghost h = hash@;
        self.pointers.insert_hash(parcel, hash);
        proof {
            assert forall|k: (i32, i32)|
                #[trigger] self.pairs().contains_key(k)
                    == old(self).pairs().insert(parcel, Ok::<Seq<char>, (i32, i32)>(h)).contains_key(k) by {
                if k != parcel && old(self).pairs().contains_key(k)
                    && old(self).pairs()[k] == Ok::<Seq<char>, (i32, i32)>(h) {
                    assert(pairs_has_hash(old(self).pairs(), h));
                }
            }
            assert(self.pairs() =~= old(self).pairs().insert(parcel, Ok::<Seq<char>, (i32, i32)>(h)));
        }
        let k = parcel_key(parcel);
        self.live.insert(k, handle);
        proof {
            lemma_unkey_of_key(parcel);
        }
    }
}

/// The pointer bijection, stated for callers: two distinct cells never
/// resolve to the same thing, so in particular one content hash can be
/// resolved — and hence spawned — at one cell only.
pub proof fn lemma_pointers_injective(s: SceneScheduler, k1: (i32, i32), k2: (i32, i32))
    requires
        s.inv(),
        s.pairs().contains_key(k1),
        s.pairs().contains_key(k2),
        k1 != k2,
    ensures
        s.pairs()[k1] != s.pairs()[k2],
{
}

/// The live-scene invariant, stated for callers: every coordinate in the
/// live set has a corresponding positive entry in the pointer cache, under
/// the cell-key encoding.
pub proof fn lemma_live_scenes_resolved(s: SceneScheduler, k: u64)
    requires
        s.inv(),
        s.live_map().contains_key(k),
    ensures
        s.pairs().contains_key(spec_unkey(k)),
        s.pairs()[spec_unkey(k)] is Ok,
        spec_parcel_key(spec_unkey(k)) == k,
{
}

/// Whether a cell appears among a lookup's results.
pub open spec fn in_some_result(rs: Seq<ActiveScene>, p: (i32, i32)) -> bool {
    exists|j: int| 0 <= j < rs.len() && (#[trigger] rs[j]).parcels@.contains(p)
}

impl SceneScheduler {
    /// The outstanding pointer lookup failed (a network error): forget it,
    /// so the next scheduling pass can try again.  Nothing is cached.
    pub fn request_failed(&mut self)
        requires
            old(self).inv(),
        ensures
            final(self).inv(),
            final(self).inflight() is None,
            final(self).pairs() == old(self).pairs(),
            final(self).live_map() == old(self).live_map(),
            final(self).realm() == old(self).realm(),
    {
        self.in_flight = None;
        proof {
            assert(self.pointers == old(self).pointers);
            assert(self.live == old(self).live);
            assert forall|k: u64| #[trigger] self.live_map().contains_key(k)
                implies self.pairs().contains_key(spec_unkey(k))
                    && self.pairs()[spec_unkey(k)] is Ok
                    && spec_parcel_key(spec_unkey(k)) == k by {
                assert(old(self).live_map().contains_key(k));
            }
        }
    }

    /// Take in the answer of the outstanding pointer lookup.  A returned
    /// scene is cached positive at the last cell it lists, as the bijection
    /// allows one cell per hash; its other listed cells end up cached
    /// negative when they were requested, and uncached otherwise.  Every
    /// requested cell that got nothing is cached negative.  Either way a
    /// requested cell is cached afterwards and stays so until the next
    /// realm change, so the same cell is never requested twice.  Live
    /// scenes whose cell lost its resolution in the reshuffle are dropped
    /// from the live set.
    pub fn pointer_response(&mut self, requested: &Vec<(i32, i32)>, results: &Vec<ActiveScene>)
        requires
            old(self).inv(),
            forall|i: int, j: int| 0 <= i < j < results@.len()
                ==> (#[trigger] results@[i]).hash@ != (#[trigger] results@[j]).hash@,
            forall|i: int, j: int, p: (i32, i32)|
                0 <= i < results@.len() && 0 <= j < results@.len() && i != j
                && #[trigger] results@[i].parcels@.contains(p)
                ==> !(#[trigger] results@[j].parcels@.contains(p)),
            forall|q: int, c1: int, c2: int| 0 <= q < results@.len()
                && 0 <= c1 < c2 < results@[q].parcels@.len()
                ==> (#[trigger] results@[q].parcels@[c1]) != (#[trigger] results@[q].parcels@[c2]),
        ensures
            final(self).inv(),
            final(self).realm() == old(self).realm(),
            final(self).inflight() is None,
            forall|j: int| 0 <= j < results@.len() && (#[trigger] results@[j]).parcels@.len() > 0
                ==> final(self).pairs().contains_key(results@[j].parcels@.last())
                    && final(self).pairs()[results@[j].parcels@.last()]
                        == Ok::<Seq<char>, (i32, i32)>(results@[j].hash@),
            forall|i: int| 0 <= i < requested@.len()
                ==> final(self).pairs().contains_key(#[trigger] requested@[i]),
            forall|i: int| 0 <= i < requested@.len()
                && !old(self).pairs().contains_key(#[trigger] requested@[i])
                && !in_some_result(results@, requested@[i])
                ==> final(self).pairs()[requested@[i]]
                    == Err::<Seq<char>, (i32, i32)>(requested@[i]),
            forall|jq: int, c: int| 0 <= jq < results@.len()
                && 0 <= c < results@[jq].parcels@.len() - 1
                ==> ({
                    let p = (#[trigger] results@[jq].parcels@[c]);
                    &&& requested@.contains(p) ==> final(self).pairs().contains_key(p)
                        && final(self).pairs()[p] == Err::<Seq<char>, (i32, i32)>(p)
                    &&& !requested@.contains(p) ==> !final(self).pairs().contains_key(p)
                }),
            final(self).live_map() == Map::new(
                |k: u64| old(self).live_map().contains_key(k)
                    && final(self).pairs().contains_key(spec_unkey(k))
                    && final(self).pairs()[spec_unkey(k)] is Ok,
                |k: u64| old(self).live_map()[k],
            ),
    {
        self.in_flight = None;
        let rn = results.len();
        let mut j: usize = 0;
        while j < rn
            invariant
                self.pointers.inv(),
                self.live == old(self).live,
                self.realm_hashes == old(self).realm_hashes,
                self.in_flight is None,
                rn == results@.len(),
                j <= rn,
                forall|i2: int, j2: int| 0 <= i2 < j2 < results@.len()
                    ==> (#[trigger] results@[i2]).hash@ != (#[trigger] results@[j2]).hash@,
                forall|i2: int, j2: int, p: (i32, i32)|
                    0 <= i2 < results@.len() && 0 <= j2 < results@.len() && i2 != j2
                    && #[trigger] results@[i2].parcels@.contains(p)
                    ==> !(#[trigger] results@[j2].parcels@.contains(p)),
                forall|q: int| 0 <= q < j && (#[trigger] results@[q]).parcels@.len() > 0
                    ==> self.pairs().contains_key(results@[q].parcels@.last())
                        && self.pairs()[results@[q].parcels@.last()]
                            == Ok::<Seq<char>, (i32, i32)>(results@[q].hash@),
                forall|p: (i32, i32)| !in_some_result(results@, p)
                    && !old(self).pairs().contains_key(p)
                    ==> !(#[trigger] self.pairs().contains_key(p)),
                forall|q: int, c1: int, c2: int| 0 <= q < results@.len()
                    && 0 <= c1 < c2 < results@[q].parcels@.len()
                    ==> (#[trigger] results@[q].parcels@[c1]) != (#[trigger] results@[q].parcels@[c2]),
                forall|q: int, c: int| 0 <= q < j && 0 <= c < (#[trigger] results@[q]).parcels@.len() - 1
                    ==> !self.pairs().contains_key(#[trigger] results@[q].parcels@[c]),
            decreases rn - j,
        {
            let parcel_count = results[j].parcels.len();
            let mut a: usize = 0;
            while a < parcel_count
                invariant
                    self.pointers.inv(),
                    self.live == old(self).live,
                    self.realm_hashes == old(self).realm_hashes,
                    self.in_flight is None,
                    rn == results@.len(),
                    j < rn,
                    parcel_count == results@[j as int].parcels@.len(),
                    a <= parcel_count,
                    forall|i2: int, j2: int| 0 <= i2 < j2 < results@.len()
                        ==> (#[trigger] results@[i2]).hash@ != (#[trigger] results@[j2]).hash@,
                    forall|i2: int, j2: int, p: (i32, i32)|
                        0 <= i2 < results@.len() && 0 <= j2 < results@.len() && i2 != j2
                        && #[trigger] results@[i2].parcels@.contains(p)
                        ==> !(#[trigger] results@[j2].parcels@.contains(p)),
                    forall|q: int| 0 <= q < j && (#[trigger] results@[q]).parcels@.len() > 0
                        ==> self.pairs().contains_key(results@[q].parcels@.last())
                            && self.pairs()[results@[q].parcels@.last()]
                                == Ok::<Seq<char>, (i32, i32)>(results@[q].hash@),
                    a > 0 ==> self.pairs().contains_key(results@[j as int].parcels@[a as int - 1])
                        && self.pairs()[results@[j as int].parcels@[a as int - 1]]
                            == Ok::<Seq<char>, (i32, i32)>(results@[j as int].hash@),
                    forall|p: (i32, i32)| !in_some_result(results@, p)
                        && !old(self).pairs().contains_key(p)
                        ==> !(#[trigger] self.pairs().contains_key(p)),
                    forall|q: int, c1: int, c2: int| 0 <= q < results@.len()
                        && 0 <= c1 < c2 < results@[q].parcels@.len()
                        ==> (#[trigger] results@[q].parcels@[c1]) != (#[trigger] results@[q].parcels@[c2]),
                    forall|q: int, c: int| 0 <= q < j && 0 <= c < (#[trigger] results@[q]).parcels@.len() - 1
                        ==> !self.pairs().contains_key(#[trigger] results@[q].parcels@[c]),
                    forall|c: int| 0 <= c < a as int - 1
                        ==> !self.pairs().contains_key(#[trigger] results@[j as int].parcels@[c]),
                decreases parcel_count - a,
            {
                let parcel = results[j].parcels[a];
                let hash = results[j].hash.clone();
                let ghost m_before = self.pairs();
                self.pointers.insert_hash(parcel, hash);
                proof {
                    assert(results@[j as int].parcels@.contains(parcel));
                    assert forall|q: int| 0 <= q < j && (#[trigger] results@[q]).parcels@.len() > 0
                        implies self.pairs().contains_key(results@[q].parcels@.last())
                            && self.pairs()[results@[q].parcels@.last()]
                                == Ok::<Seq<char>, (i32, i32)>(results@[q].hash@) by {
                        let lp = results@[q].parcels@.last();
                        assert(results@[q].parcels@.contains(lp));
                        assert(lp != parcel);
                        assert(m_before[lp] != Ok::<Seq<char>, (i32, i32)>(results@[j as int].hash@));
                    }
                    assert forall|p: (i32, i32)| !in_some_result(results@, p)
                        && !old(self).pairs().contains_key(p)
                        implies !(#[trigger] self.pairs().contains_key(p)) by {
                        if self.pairs().contains_key(p) && p != parcel {
                            assert(m_before.contains_key(p));
                        }
                        assert(p != parcel || in_some_result(results@, p));
                    }
                    assert forall|q: int, c: int| 0 <= q < j
                        && 0 <= c < (#[trigger] results@[q]).parcels@.len() - 1
                        implies !self.pairs().contains_key(#[trigger] results@[q].parcels@[c]) by {
                        let p2 = results@[q].parcels@[c];
                        assert(results@[q].parcels@.contains(p2));
                        assert(p2 != parcel);
                        assert(!m_before.contains_key(p2));
                    }
                    assert forall|c: int| 0 <= c < a as int
                        implies !self.pairs().contains_key(#[trigger] results@[j as int].parcels@[c]) by {
                        let p2 = results@[j as int].parcels@[c];
                        assert(p2 != parcel);
                        if c < a as int - 1 {
                            assert(!m_before.contains_key(p2));
                        } else {
                            assert(m_before.contains_key(p2)
                                && m_before[p2] == Ok::<Seq<char>, (i32, i32)>(results@[j as int].hash@));
                        }
                    }
                }
                a += 1;
            }
            j += 1;
            proof {
                assert forall|q: int| 0 <= q < j && (#[trigger] results@[q]).parcels@.len() > 0
                    implies self.pairs().contains_key(results@[q].parcels@.last())
                        && self.pairs()[results@[q].parcels@.last()]
                            == Ok::<Seq<char>, (i32, i32)>(results@[q].hash@) by {
                    if q == j - 1 {
                        assert(results@[q].parcels@.last()
                            == results@[q].parcels@[parcel_count as int - 1]);
                    }
                }
                assert forall|q: int, c: int| 0 <= q < j
                    && 0 <= c < (#[trigger] results@[q]).parcels@.len() - 1
                    implies !self.pairs().contains_key(#[trigger] results@[q].parcels@[c]) by {
                    if q == j - 1 {
                        assert(c < parcel_count as int - 1);
                    }
                }
            }
        }

        let ghost m_mid = self.pairs();
        let qn = requested.len();
        let mut i: usize = 0;
        while i < qn
            invariant
                self.pointers.inv(),
                self.live == old(self).live,
                self.realm_hashes == old(self).realm_hashes,
                self.in_flight is None,
                qn == requested@.len(),
                i <= qn,
                forall|p: (i32, i32)| #[trigger] m_mid.contains_key(p)
                    ==> self.pairs().contains_key(p) && self.pairs()[p] == m_mid[p],
                forall|p: (i32, i32)| #[trigger] self.pairs().contains_key(p)
                    ==> m_mid.contains_key(p)
                        || self.pairs()[p] == Err::<Seq<char>, (i32, i32)>(p),
                forall|p: (i32, i32)| #[trigger] self.pairs().contains_key(p)
                    ==> m_mid.contains_key(p) || requested@.contains(p),
                forall|q: int| 0 <= q < i ==> self.pairs().contains_key(#[trigger] requested@[q]),
            decreases qn - i,
        {
            let p = requested[i];
            let ghost mb = self.pairs();
            self.pointers.insert_nothing(p);
            proof {
                assert forall|p2: (i32, i32)| #[trigger] self.pairs().contains_key(p2)
                    implies m_mid.contains_key(p2)
                        || self.pairs()[p2] == Err::<Seq<char>, (i32, i32)>(p2) by {
                    if p2 == p && !mb.contains_key(p) {
                        assert(self.pairs()[p2] == Err::<Seq<char>, (i32, i32)>(p));
                    } else {
                        assert(mb.contains_key(p2) && self.pairs()[p2] == mb[p2]);
                    }
                }
                assert forall|p2: (i32, i32)| #[trigger] self.pairs().contains_key(p2)
                    implies m_mid.contains_key(p2) || requested@.contains(p2) by {
                    if p2 == p {
                        assert(requested@[i as int] == p);
                    } else {
                        assert(mb.contains_key(p2));
                    }
                }
            }
            i += 1;
        }
        proof {
            assert forall|q: int| 0 <= q < results@.len()
                && (#[trigger] results@[q]).parcels@.len() > 0
                implies self.pairs().contains_key(results@[q].parcels@.last())
                    && self.pairs()[results@[q].parcels@.last()]
                        == Ok::<Seq<char>, (i32, i32)>(results@[q].hash@) by {
                assert(m_mid.contains_key(results@[q].parcels@.last()));
            }
            assert forall|jq: int, c: int| 0 <= jq < results@.len()
                && 0 <= c < results@[jq].parcels@.len() - 1
                implies ({
                    let p = (#[trigger] results@[jq].parcels@[c]);
                    &&& requested@.contains(p) ==> self.pairs().contains_key(p)
                        && self.pairs()[p] == Err::<Seq<char>, (i32, i32)>(p)
                    &&& !requested@.contains(p) ==> !self.pairs().contains_key(p)
                }) by {
                let p = results@[jq].parcels@[c];
                assert(!m_mid.contains_key(p));
                if requested@.contains(p) {
                    let idx = choose|idx: int| 0 <= idx < requested@.len() && requested@[idx] == p;
                    assert(self.pairs().contains_key(requested@[idx]));
                    assert(self.pairs()[p] == Err::<Seq<char>, (i32, i32)>(p));
                } else {
                    if self.pairs().contains_key(p) {
                        assert(m_mid.contains_key(p) || requested@.contains(p));
                    }
                }
            }
            assert forall|q: int| 0 <= q < requested@.len()
                && !old(self).pairs().contains_key(#[trigger] requested@[q])
                && !in_some_result(results@, requested@[q])
                implies self.pairs()[requested@[q]]
                    == Err::<Seq<char>, (i32, i32)>(requested@[q]) by {
                assert(!m_mid.contains_key(requested@[q]));
                assert(self.pairs().contains_key(requested@[q]));
            }
        }

        let mut kept: KvMap<u64> = KvMap::new();
        let mut b: usize = 0;
        let ln = self.live.len();
        while b < ln
            invariant
                self.live == old(self).live,
                self.live.wf(),
                kept.wf(),
                ln == self.live.entries().len(),
                b <= ln,
                forall|k: u64| #[trigger] kept.as_map().contains_key(k)
                    ==> self.live.as_map().contains_key(k)
                        && kept.as_map()[k] == self.live.as_map()[k]
                        && self.pointers.pairs().contains_key(spec_unkey(k))
                        && self.pointers.pairs()[spec_unkey(k)] is Ok
                        && (exists|c: int| 0 <= c < b && (#[trigger] self.live.entries()[c]).0 == k),
                forall|c: int| 0 <= c < b
                    && self.pointers.pairs().contains_key(spec_unkey((#[trigger] self.live.entries()[c]).0))
                    && self.pointers.pairs()[spec_unkey(self.live.entries()[c].0)] is Ok
                    ==> kept.as_map().contains_key(self.live.entries()[c].0),
            decreases ln - b,
        {
            let entry = self.live.entry_at(b);
            let k = entry.0;
            let h = entry.1;
            proof {
                lemma_index_unique(self.live.entries(), b as int);
            }
            let p = unkey(k);
            let keep_it = match self.pointers.get(p) {
                Some(PointerResult::Exists(_)) => true,
                _ => false,
            };
            if keep_it {
                proof {
                    assert(!kept.as_map().contains_key(k)) by {
                        if kept.as_map().contains_key(k) {
                            let c = choose|c: int| 0 <= c < b
                                && (#[trigger] self.live.entries()[c]).0 == k;
                        }
                    }
                }
                kept.insert(k, h);
            }
            b += 1;
        }
        self.live = kept;
        proof {
            assert forall|k: u64| #[trigger] self.live_map().contains_key(k)
                implies self.pairs().contains_key(spec_unkey(k))
                    && self.pairs()[spec_unkey(k)] is Ok
                    && spec_parcel_key(spec_unkey(k)) == k by {
                assert(old(self).live_map().contains_key(k));
            }
            assert forall|k: u64| old(self).live_map().contains_key(k)
                && self.pairs().contains_key(spec_unkey(k))
                && self.pairs()[spec_unkey(k)] is Ok
                implies #[trigger] self.live.as_map().contains_key(k) by {
                let c = index_of_key(old(self).live.entries(), k);
                lemma_index_unique(old(self).live.entries(), c);
            }
            assert(self.live_map() =~= Map::new(
                |k: u64| old(self).live_map().contains_key(k)
                    && self.pairs().contains_key(spec_unkey(k))
                    && self.pairs()[spec_unkey(k)] is Ok,
                |k: u64| old(self).live_map()[k],
            ));
        }
    }
}

/// When the one cell a hash resolves at is not live-and-running, no cell
/// witnesses readiness for that hash.
proof fn lemma_not_ready_witness(s: SceneScheduler, running: Seq<u64>, h: Seq<char>, p0: (i32, i32))
    requires
        s.inv(),
        s.pairs().contains_key(p0),
        s.pairs()[p0] == Ok::<Seq<char>, (i32, i32)>(h),
        !(s.live_map().contains_key(spec_parcel_key(p0))
            && running.contains(s.live_map()[spec_parcel_key(p0)])),
    ensures
        !s.realm_entry_ready(running, h),
{
    if s.realm_entry_ready(running, h) {
        let p = choose|p: (i32, i32)|
            {
                &&& #[trigger] s.pairs().contains_key(p)
                &&& s.pairs()[p] == Ok::<Seq<char>, (i32, i32)>(h)
                &&& s.live_map().contains_key(spec_parcel_key(p))
                &&& running.contains(s.live_map()[spec_parcel_key(p)])
            };
        assert(p == p0);
    }
}

/// A copy of the live table without one key.
fn retain_live_except(live: &KvMap<u64>, except: u64) -> (r: KvMap<u64>)
    requires
        live.wf(),
    ensures
        r.wf(),
        forall|k: u64| #[trigger] r.as_map().contains_key(k)
            == (live.as_map().contains_key(k) && k != except),
        forall|k: u64| r.as_map().contains_key(k) ==> #[trigger] r.as_map()[k] == live.as_map()[k],
{
    let mut out: KvMap<u64> = KvMap::new();
    let mut i: usize = 0;
    let n = live.len();
    while i < n
        invariant
            live.wf(),
            out.wf(),
            n == live.entries().len(),
            i <= n,
            forall|k: u64| #[trigger] out.as_map().contains_key(k)
                ==> live.as_map().contains_key(k) && k != except
                    && out.as_map()[k] == live.as_map()[k],
            forall|j: int| 0 <= j < i && (#[trigger] live.entries()[j]).0 != except
                ==> out.as_map().contains_key(live.entries()[j].0),
        decreases n - i,
    {
        let entry = live.entry_at(i);
        let k = entry.0;
        let v = entry.1;
        proof {
            lemma_index_unique(live.entries(), i as int);
        }
        if k != except {
            out.insert(k, v);
        }
        i += 1;
    }
    proof {
        assert forall|k: u64| live.as_map().contains_key(k) && k != except
            implies #[trigger] out.as_map().contains_key(k) by {
            let j = index_of_key(live.entries(), k);
        }
    }
    out
}

} // verus!
