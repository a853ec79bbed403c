//! The pointer cache: the authoritative bijective mapping from a spatial
//! cell to its resolution (a scene's content hash, or a recorded absence),
//! preventing redundant network lookups within a realm session.
//!
//! The mapping lives in a `bimap::BiHashMap`, so that a content hash can be
//! looked up by cell and a cell by content hash; its contents are named by
//! `bimap_pairs` and every access goes through a trusted wrapper whose
//! contract states what the bimap's source shows.

use vstd::prelude::*;

verus! {

/// A cell's resolution: a scene content hash, or a recorded absence.  An
/// absence carries its own cell coordinates so that distinct cells' negative
/// entries stay distinct values in the bijective map.
#[derive(PartialEq, Eq, Hash, Debug)]
pub enum PointerResult {
    Nothing(i32, i32),
    Exists(String),
}

impl Clone for PointerResult {
    fn clone(&self) -> (r: Self)
        ensures
            r == *self,
    {
        match self {
            PointerResult::Exists(hash) => PointerResult::Exists(hash.clone()),
            PointerResult::Nothing(x, y) => PointerResult::Nothing(*x, *y),
        }
    }
}

impl View for PointerResult {
    type V = Result<Seq<char>, (i32, i32)>;

    open spec fn view(&self) -> Result<Seq<char>, (i32, i32)> {
        match self {
            PointerResult::Exists(hash) => Ok(hash@),
            PointerResult::Nothing(x, y) => Err((*x, *y)),
        }
    }
}

/// The bimap specialized to the pointer cache's types.
pub type ParcelBiMap = bimap::BiHashMap<(i32, i32), PointerResult>;

#[verifier::external_type_specification]
#[verifier::external_body]
#[verifier::reject_recursive_types(L)]
#[verifier::reject_recursive_types(R)]
#[verifier::reject_recursive_types(LS)]
#[verifier::reject_recursive_types(RS)]
pub struct ExBiHashMap<L, R, LS, RS>(bimap::BiHashMap<L, R, LS, RS>);

/// What the bimap holds, keyed by the left (cell) side: each pair's right
/// value, abstracted through the `PointerResult` view.
pub uninterp spec fn bimap_pairs(m: ParcelBiMap) -> Map<(i32, i32), Result<Seq<char>, (i32, i32)>>;

/// Relies on bimap::BiHashMap::new: an empty bimap.
#[verifier::external_body]
fn bm_new() -> (r: ParcelBiMap)
    ensures
        forall|k: (i32, i32)| !bimap_pairs(r).contains_key(k),
{
    bimap::BiHashMap::new()
}

/// Relies on bimap::BiHashMap::insert: when neither the left nor the right
/// value is present, the pair is inserted and nothing is overwritten.
#[verifier::external_body]
fn bm_insert_fresh(m: &mut ParcelBiMap, l: (i32, i32), r: PointerResult)
    requires
        !bimap_pairs(*old(m)).contains_key(l),
        forall|k: (i32, i32)| bimap_pairs(*old(m)).contains_key(k)
            ==> bimap_pairs(*old(m))[k] != r@,
    ensures
        bimap_pairs(*final(m)) == bimap_pairs(*old(m)).insert(l, r@),
{
    m.insert(l, r);
}

/// Relies on bimap::BiHashMap::get_by_left: the right value paired with the
/// given left value, if the pair exists.
#[verifier::external_body]
fn bm_get_by_left(m: &ParcelBiMap, l: (i32, i32)) -> (r: Option<PointerResult>)
    ensures
        match r {
            Some(p) => bimap_pairs(*m).contains_key(l) && p@ == bimap_pairs(*m)[l],
            None => !bimap_pairs(*m).contains_key(l),
        },
{
    m.get_by_left(&l).cloned()
}

/// Relies on bimap::BiHashMap::contains_left.
#[verifier::external_body]
fn bm_contains_left(m: &ParcelBiMap, l: (i32, i32)) -> (r: bool)
    ensures
        r == bimap_pairs(*m).contains_key(l),
{
    m.contains_left(&l)
}

/// Relies on bimap::BiHashMap::get_by_right: the left value paired with the
/// given right value, if the pair exists.
#[verifier::external_body]
fn bm_get_by_right(m: &ParcelBiMap, p: &PointerResult) -> (r: Option<(i32, i32)>)
    ensures
        match r {
            Some(l) => bimap_pairs(*m).contains_key(l) && bimap_pairs(*m)[l] == p@,
            None => forall|l: (i32, i32)| bimap_pairs(*m).contains_key(l)
                ==> bimap_pairs(*m)[l] != p@,
        },
{
    m.get_by_right(p).copied()
}

/// Relies on bimap::BiHashMap::remove_by_left: removes the pair with the
/// given left value, if present.
#[verifier::external_body]
fn bm_remove_by_left(m: &mut ParcelBiMap, l: (i32, i32))
    ensures
        bimap_pairs(*final(m)) == bimap_pairs(*old(m)).remove(l),
{
    m.remove_by_left(&l);
}

/// Relies on bimap::BiHashMap::remove_by_right: removes the pair with the
/// given right value, if present.
#[verifier::external_body]
fn bm_remove_by_right(m: &mut ParcelBiMap, p: &PointerResult) -> (r: Option<(i32, i32)>)
    ensures
        match r {
            Some(l) => bimap_pairs(*old(m)).contains_key(l) && bimap_pairs(*old(m))[l] == p@
                && bimap_pairs(*final(m)) == bimap_pairs(*old(m)).remove(l),
            None => bimap_pairs(*final(m)) == bimap_pairs(*old(m))
                && (forall|l: (i32, i32)| bimap_pairs(*old(m)).contains_key(l)
                    ==> bimap_pairs(*old(m))[l] != p@),
        },
{
    m.remove_by_right(p).map(|pair| pair.0)
}

/// Relies on bimap::BiHashMap::iter: every pair exactly once, in no
/// particular order.
#[verifier::external_body]
fn bm_pairs_vec(m: &ParcelBiMap) -> (r: Vec<((i32, i32), PointerResult)>)
    ensures
        forall|i: int| 0 <= i < r@.len() ==> bimap_pairs(*m).contains_key((#[trigger] r@[i]).0)
            && r@[i].1@ == bimap_pairs(*m)[r@[i].0],
        forall|i: int, j: int| 0 <= i < j < r@.len() ==> (#[trigger] r@[i]).0 != (#[trigger] r@[j]).0,
        forall|l: (i32, i32)| #[trigger] bimap_pairs(*m).contains_key(l)
            ==> exists|i: int| 0 <= i < r@.len() && (#[trigger] r@[i]).0 == l,
{
    m.iter().map(|(l, r2)| (*l, r2.clone())).collect()
}

/// The pointer cache.  Beyond the bijection the bimap itself keeps, the
/// cache maintains that a negative entry is always recorded under its own
/// cell.
pub struct ScenePointers {
    map: ParcelBiMap,
}

impl ScenePointers {
    /// The cache's contents, keyed by cell.
    pub closed spec fn pairs(self) -> Map<(i32, i32), Result<Seq<char>, (i32, i32)>> {
        bimap_pairs(self.map)
    }

    /// A negative entry sits at its own cell, and no two cells resolve to
    /// the same thing.
    pub open spec fn inv(self) -> bool {
        &&& forall|k: (i32, i32)| self.pairs().contains_key(k) && (#[trigger] self.pairs()[k]) is Err
            ==> self.pairs()[k]->Err_0 == k
        &&& forall|k1: (i32, i32), k2: (i32, i32)|
            self.pairs().contains_key(k1) && self.pairs().contains_key(k2) && k1 != k2
            ==> #[trigger] self.pairs()[k1] != #[trigger] self.pairs()[k2]
    }

    pub fn new() -> (r: ScenePointers)
        ensures
            r.inv(),
            r.pairs() == Map::<(i32, i32), Result<Seq<char>, (i32, i32)>>::empty(),
    {
        ScenePointers { map: bm_new() }
    }

    /// The cached resolution of a cell, if any.
    pub fn get(&self, parcel: (i32, i32)) -> (r: Option<PointerResult>)
        ensures
            match r {
                Some(p) => self.pairs().contains_key(parcel) && p@ == self.pairs()[parcel],
                None => !self.pairs().contains_key(parcel),
            },
    {
        bm_get_by_left(&self.map, parcel)
    }

    pub fn contains(&self, parcel: (i32, i32)) -> (r: bool)
        ensures
            r == self.pairs().contains_key(parcel),
    {
        bm_contains_left(&self.map, parcel)
    }

    /// The cell a content hash resolved at, if any.
    pub fn hash_parcel(&self, hash: &String) -> (r: Option<(i32, i32)>)
        ensures
            match r {
                Some(l) => self.pairs().contains_key(l) && self.pairs()[l] == Ok::<Seq<char>, (i32, i32)>(hash@),
                None => forall|l: (i32, i32)| self.pairs().contains_key(l)
                    ==> #[trigger] self.pairs()[l] != Ok::<Seq<char>, (i32, i32)>(hash@),
            },
    {
        let probe = PointerResult::Exists(hash.clone());
        bm_get_by_right(&self.map, &probe)
    }

    pub fn contains_hash(&self, hash: &String) -> (r: bool)
        ensures
            r == exists|l: (i32, i32)| self.pairs().contains_key(l)
                && #[trigger] self.pairs()[l] == Ok::<Seq<char>, (i32, i32)>(hash@),
    {
        let found = self.hash_parcel(hash);
        proof {
            if found is Some {
                let l = found->0;
                assert(self.pairs().contains_key(l)
                    && self.pairs()[l] == Ok::<Seq<char>, (i32, i32)>(hash@));
            }
        }
        found.is_some()
    }

    /// Record a positive resolution: the cell now resolves to the hash,
    /// superseding whatever the cell resolved to before and whatever other
    /// cell resolved to the same hash (a scene moves as a whole).
    pub fn insert_hash(&mut self, parcel: (i32, i32), hash: String)
        requires
            old(self).inv(),
        ensures
            final(self).inv(),
            final(self).pairs() == Map::new(
                |k: (i32, i32)| k == parcel
                    || (old(self).pairs().contains_key(k)
                        && old(self).pairs()[k] != Ok::<Seq<char>, (i32, i32)>(hash@)),
                |k: (i32, i32)| if k == parcel {
                    Ok::<Seq<char>, (i32, i32)>(hash@)
                } else {
                    old(self).pairs()[k]
                },
            ),
    {
        let probe = PointerResult::Exists(hash.clone());
        let ghost p0 = self.pairs();
        bm_remove_by_left(&mut self.map, parcel);
        let ghost p1 = self.pairs();
        let evicted = bm_remove_by_right(&mut self.map, &probe);
        let ghost p2 = self.pairs();
        bm_insert_fresh(&mut self.map, parcel, probe);
        proof {
            let target = Ok::<Seq<char>, (i32, i32)>(hash@);
            assert forall|k: (i32, i32)| k != parcel implies
                (#[trigger] self.pairs().contains_key(k)
                    == (p0.contains_key(k) && p0[k] != target))
                && (self.pairs().contains_key(k) ==> self.pairs()[k] == p0[k]) by {
                match evicted {
                    Some(l) => {
                        assert(p1.contains_key(l) && p1[l] == target);
                        assert(l != parcel);
                        assert(p0[l] == target);
                        if k != l && p0.contains_key(k) && p0[k] == target {
                            assert(p0[k] == p0[l]);
                        }
                    }
                    None => {
                        if p0.contains_key(k) && p0[k] == target {
                            assert(p1.contains_key(k) && p1[k] == target);
                        }
                    }
                }
            }
            assert(final(self).pairs() =~= Map::new(
                |k: (i32, i32)| k == parcel
                    || (old(self).pairs().contains_key(k)
                        && old(self).pairs()[k] != Ok::<Seq<char>, (i32, i32)>(hash@)),
                |k: (i32, i32)| if k == parcel {
                    Ok::<Seq<char>, (i32, i32)>(hash@)
                } else {
                    old(self).pairs()[k]
                },
            ));
        }
    }

    /// Record a negative resolution for a cell that has none yet; a cell
    /// that already resolved keeps its entry.
    pub fn insert_nothing(&mut self, parcel: (i32, i32))
        requires
            old(self).inv(),
        ensures
            final(self).inv(),
            old(self).pairs().contains_key(parcel) ==> *final(self) == *old(self),
            !old(self).pairs().contains_key(parcel) ==> final(self).pairs()
                == old(self).pairs().insert(parcel, Err::<Seq<char>, (i32, i32)>(parcel)),
    {
        if !bm_contains_left(&self.map, parcel) {
            let entry = PointerResult::Nothing(parcel.0, parcel.1);
            proof {
                assert(parcel == (parcel.0, parcel.1));
                assert forall|k: (i32, i32)| self.pairs().contains_key(k)
                    implies #[trigger] self.pairs()[k] != entry@ by {
                    if self.pairs()[k] == entry@ {
                        assert(self.pairs()[k] is Err && self.pairs()[k]->Err_0 == parcel);
                    }
                }
            }
            bm_insert_fresh(&mut self.map, parcel, entry);
        }
    }

    /// Purge for a realm change: keep only the cells resolved to one of the
    /// given content hashes; negative entries and foreign scenes are
    /// dropped.
    pub fn retain_hashes(&mut self, keep: &Vec<String>)
        requires
            old(self).inv(),
        ensures
            final(self).inv(),
            final(self).pairs() == Map::new(
                |k: (i32, i32)| old(self).pairs().contains_key(k)
                    && (old(self).pairs()[k]) is Ok
                    && hash_views(keep@).contains(old(self).pairs()[k]->Ok_0),
                |k: (i32, i32)| old(self).pairs()[k],
            ),
    {
        let entries = bm_pairs_vec(&self.map);
        let mut fresh = bm_new();
        let ghost target = Map::new(
            |k: (i32, i32)| old(self).pairs().contains_key(k)
                && (old(self).pairs()[k]) is Ok
                && hash_views(keep@).contains(old(self).pairs()[k]->Ok_0),
            |k: (i32, i32)| old(self).pairs()[k],
        );
        let mut i: usize = 0;
        let n = entries.len();
        while i < n
            invariant
                old(self).inv(),
                n == entries@.len(),
                i <= n,
                target == Map::new(
                    |k: (i32, i32)| old(self).pairs().contains_key(k)
                        && (old(self).pairs()[k]) is Ok
                        && hash_views(keep@).contains(old(self).pairs()[k]->Ok_0),
                    |k: (i32, i32)| old(self).pairs()[k],
                ),
                forall|a: int| 0 <= a < entries@.len()
                    ==> old(self).pairs().contains_key((#[trigger] entries@[a]).0)
                        && entries@[a].1@ == old(self).pairs()[entries@[a].0],
                forall|a: int, b: int| 0 <= a < b < entries@.len()
                    ==> (#[trigger] entries@[a]).0 != (#[trigger] entries@[b]).0,
                forall|l: (i32, i32)| #[trigger] old(self).pairs().contains_key(l)
                    ==> exists|a: int| 0 <= a < entries@.len() && (#[trigger] entries@[a]).0 == l,
                forall|k: (i32, i32)| #[trigger] bimap_pairs(fresh).contains_key(k)
                    ==> target.contains_key(k) && bimap_pairs(fresh)[k] == target[k]
                        && (exists|a: int| 0 <= a < i && (#[trigger] entries@[a]).0 == k),
                forall|a: int| 0 <= a < i && target.contains_key((#[trigger] entries@[a]).0)
                    ==> bimap_pairs(fresh).contains_key(entries@[a].0),
            decreases n - i,
        {
            let (parcel, result) = {
                let e = &entries[i];
                (e.0, e.1.clone())
            };
            let wanted = match &result {
                PointerResult::Exists(h) => contains_string(keep, h),
                PointerResult::Nothing(_, _) => false,
            };
            if wanted {
                proof {
                    assert(target.contains_key(parcel));
                    assert(!bimap_pairs(fresh).contains_key(parcel)) by {
                        if bimap_pairs(fresh).contains_key(parcel) {
                            let a = choose|a: int| 0 <= a < i && (#[trigger] entries@[a]).0 == parcel;
                        }
                    }
                    assert forall|k: (i32, i32)| bimap_pairs(fresh).contains_key(k)
                        implies #[trigger] bimap_pairs(fresh)[k] != result@ by {
                        let a = choose|a: int| 0 <= a < i && (#[trigger] entries@[a]).0 == k;
                    }
                }
                bm_insert_fresh(&mut fresh, parcel, result);
            }
            i += 1;
        }
        self.map = fresh;
        proof {
            assert forall|k: (i32, i32)| #[trigger] target.contains_key(k)
                implies bimap_pairs(self.map).contains_key(k) by {
                let a = choose|a: int| 0 <= a < entries@.len() && (#[trigger] entries@[a]).0 == k;
            }
            assert(self.pairs() =~= target);
        }
    }
}

/// The views of a list of hashes.
pub open spec fn hash_views(hashes: Seq<String>) -> Seq<Seq<char>> {
    hashes.map_values(|h: String| h@)
}

/// True iff the list holds a string with the same characters.
pub fn contains_string(list: &Vec<String>, s: &String) -> (r: bool)
    ensures
        r == hash_views(list@).contains(s@),
{
    let mut i: usize = 0;
    let n = list.len();
    while i < n
        invariant
            n == list@.len(),
            i <= n,
            forall|j: int| 0 <= j < i ==> (#[trigger] list@[j])@ != s@,
        decreases n - i,
    {
        if list[i] == *s {
            proof {
                assert(hash_views(list@)[i as int] == s@);
            }
            return true;
        }
        i += 1;
    }
    proof {
        assert forall|j: int| 0 <= j < hash_views(list@).len()
            implies (#[trigger] hash_views(list@)[j]) != s@ by {
            assert(hash_views(list@)[j] == list@[j]@);
        }
    }
    false
}

/// A small map from an encoded cell to a live scene's root handle, with the
/// cell encoding used by the live-scene table.
pub open spec fn spec_parcel_key(p: (i32, i32)) -> u64 {
    (p.0 as u32 as int * 0x1_0000_0000 + p.1 as u32 as int) as u64
}

pub fn parcel_key(p: (i32, i32)) -> (r: u64)
    ensures
        r == spec_parcel_key(p),
{
    (p.0 as u32 as u64) * 0x1_0000_0000 + (p.1 as u32 as u64)
}

} // verus!
