//! Asset identities and the asset table.
//!
//! An asset has three names: its GUID (a UUID v4, stable across renames),
//! its path hash (the FNV-1a lookup key inside archives) and its
//! normalized path. The table finds records by path hash and by GUID.

use vstd::prelude::*;
use crate::console::unicode_whitespace;
use crate::wpak::{fnv1a, normalize_path, normalized_path, path_hash};

verus! {

broadcast use vstd::std_specs::hash::group_hash_axioms;

/// Where an asset is in its life.
#[derive(Clone, Debug)]
pub enum LoadState {
    Unloaded,
    Loading,
    Loaded,
    Failed(String),
}

/// Which archive or loose file holds an asset's bytes.
#[derive(Clone, Copy, Debug, PartialEq, Eq, Structural)]
pub enum DataSource {
    Unassigned,
    Archive { archive_index: usize },
    Loose,
}

/// The three-layer identity of an asset. `guid` is the UUID as a number.
#[derive(Clone, Debug)]
pub struct AssetId {
    pub guid: u128,
    pub path_hash: u64,
    pub path: String,
}

/// The version nibble of a GUID is 4 (random) and its variant bits are 10.
pub open spec fn is_v4_guid(g: u128) -> bool {
    (g >> 76u128) & 0xFu128 == 4 && (g >> 62u128) & 0x3u128 == 2
}

/// `Uuid::new_v4` read as a number. The result is random; the contract
/// states only the version and variant bits that every outcome has.
#[verifier::external_body]
fn new_v4_guid() -> (g: u128)
    ensures
        is_v4_guid(g),
{
    uuid::Uuid::new_v4().as_u128()
}

impl AssetId {
    /// A fresh random GUID for a path.
    pub fn for_path(path: &str) -> (id: Self)
        ensures
            is_v4_guid(id.guid),
            id.path_hash == path_hash(path@),
            id.path@ == normalized_path(path@),
    {
        AssetId { guid: new_v4_guid(), path_hash: fnv1a(path), path: normalize_path(path) }
    }

    /// A path with a known GUID.
    pub fn for_path_with_guid(path: &str, guid: u128) -> (id: Self)
        ensures
            id.guid == guid,
            id.path_hash == path_hash(path@),
            id.path@ == normalized_path(path@),
    {
        AssetId { guid, path_hash: fnv1a(path), path: normalize_path(path) }
    }
}

// --- Records -------------------------------------------------------------------------------

/// One loaded (or loading) asset with its reference count.
pub struct AssetRecord {
    pub id: AssetId,
    pub data_source: DataSource,
    pub ref_count: u32,
    pub load_state: LoadState,
    data: Option<Vec<u8>>,
}

/// What a record holds, strings and bytes as sequences.
pub ghost struct AssetRecordView {
    pub guid: u128,
    pub path_hash: u64,
    pub path: Seq<char>,
    pub data_source: DataSource,
    pub ref_count: u32,
    pub state: LoadStateView,
    pub data: Option<Seq<u8>>,
}

/// A load state with its error text as a sequence.
pub ghost enum LoadStateView {
    Unloaded,
    Loading,
    Loaded,
    Failed(Seq<char>),
}

pub open spec fn load_state_view(s: LoadState) -> LoadStateView {
    match s {
        LoadState::Unloaded => LoadStateView::Unloaded,
        LoadState::Loading => LoadStateView::Loading,
        LoadState::Loaded => LoadStateView::Loaded,
        LoadState::Failed(e) => LoadStateView::Failed(e@),
    }
}

impl View for AssetRecord {
    type V = AssetRecordView;

    closed spec fn view(&self) -> AssetRecordView {
        AssetRecordView {
            guid: self.id.guid,
            path_hash: self.id.path_hash,
            path: self.id.path@,
            data_source: self.data_source,
            ref_count: self.ref_count,
            state: load_state_view(self.load_state),
            data: match self.data {
                Some(d) => Some(d@),
                None => None,
            },
        }
    }
}

impl AssetRecord {
    /// A record with no references, not yet loaded.
    pub fn new(id: AssetId, data_source: DataSource) -> (r: Self)
        ensures
            r@.guid == id.guid,
            r@.path_hash == id.path_hash,
            r@.path == id.path@,
            r@.data_source == data_source,
            r@.ref_count == 0,
            r@.state == LoadStateView::Unloaded,
            r@.data is None,
    {
        AssetRecord { id, data_source, ref_count: 0, load_state: LoadState::Unloaded, data: None }
    }

    /// The loaded bytes, if any.
    pub fn data(&self) -> (r: Option<&Vec<u8>>)
        ensures
            match r {
                Some(d) => self@.data == Some(d@),
                None => self@.data is None,
            },
    {
        match &self.data {
            Some(d) => Some(d),
            None => None,
        }
    }

    /// Store the loaded bytes; the record is loaded.
    pub fn set_data(&mut self, bytes: Vec<u8>)
        ensures
            final(self)@ == (AssetRecordView {
                state: LoadStateView::Loaded,
                data: Some(bytes@),
                ..old(self)@
            }),
    {
        self.data = Some(bytes);
        self.load_state = LoadState::Loaded;
    }

    /// Record that loading failed.
    pub fn set_failed(&mut self, error: String)
        ensures
            final(self)@ == (AssetRecordView { state: LoadStateView::Failed(error@), ..old(self)@ }),
    {
        self.load_state = LoadState::Failed(error);
    }

    /// Take a reference (the count wraps like an atomic add).
    pub fn acquire(&mut self)
        ensures
            final(self)@ == (AssetRecordView {
                ref_count: vstd::wrapping::u32_specs::wrapping_add(old(self)@.ref_count, 1),
                ..old(self)@
            }),
    {
        self.ref_count = self.ref_count.wrapping_add(1);
    }

    /// Drop a reference (the count wraps like an atomic subtract); returns
    /// the count left, never below zero.
    pub fn release(&mut self) -> (left: u32)
        ensures
            final(self)@ == (AssetRecordView {
                ref_count: vstd::wrapping::u32_specs::wrapping_sub(old(self)@.ref_count, 1),
                ..old(self)@
            }),
            left == if old(self)@.ref_count == 0 {
                0
            } else {
                (old(self)@.ref_count - 1) as u32
            },
    {
        let before = self.ref_count;
        self.ref_count = self.ref_count.wrapping_sub(1);
        before.saturating_sub(1)
    }

    /// The reference count.
    pub fn refs(&self) -> (n: u32)
        ensures
            n == self@.ref_count,
    {
        self.ref_count
    }
}

// --- The asset table ---------------------------------------------------------------------

/// What the table holds: records by path hash, and path hashes by GUID.
pub ghost struct AssetTableView {
    pub records: Map<u64, AssetRecordView>,
    pub guids: Map<u128, u64>,
}

/// Records found by path hash and by GUID.
pub struct AssetTable {
    records: std::collections::HashMap<u64, AssetRecord>,
    guid_index: std::collections::HashMap<u128, u64>,
}

/// The records left when those with no references are removed.
pub open spec fn unreferenced_evicted(m: Map<u64, AssetRecordView>) -> Map<u64, AssetRecordView> {
    Map::new(|h: u64| m.contains_key(h) && m[h].ref_count != 0, |h: u64| m[h])
}

/// The GUIDs of the records with no references.
pub open spec fn unreferenced_guids(m: Map<u64, AssetRecordView>) -> Set<u128> {
    Set::new(|g: u128| exists|h: u64| m.contains_key(h) && m[h].ref_count == 0 && #[trigger] m[h].guid == g)
}

/// The GUIDs of the records with the given hashes.
pub open spec fn evicted_guids(m: Map<u64, AssetRecordView>, hs: Seq<u64>) -> Set<u128> {
    Set::new(|g: u128| exists|a: int| 0 <= a < hs.len() && #[trigger] m[hs[a]].guid == g)
}

impl View for AssetTable {
    type V = AssetTableView;

    closed spec fn view(&self) -> AssetTableView {
        AssetTableView {
            records: self.records@.map_values(|r: AssetRecord| r@),
            guids: self.guid_index@,
        }
    }
}

/// The GUID index once `g` names hash `h`: every GUID that named `h` before
/// is dropped, so `g` is the one GUID naming `h`.
pub open spec fn guids_renamed(guids: Map<u128, u64>, g: u128, h: u64) -> Map<u128, u64> {
    Map::new(|k: u128| guids.contains_key(k) && guids[k] != h, |k: u128| guids[k]).insert(g, h)
}

/// The hashes of the records with no references, each once.
fn unreferenced_hashes(m: &std::collections::HashMap<u64, AssetRecord>) -> (r: Vec<u64>)
    ensures
        forall|a: int| 0 <= a < r@.len() ==> m@.contains_key(#[trigger] r@[a]) && m@[r@[a]]@.ref_count == 0,
        forall|h: u64| m@.contains_key(h) && m@[h]@.ref_count == 0 ==> #[trigger] r@.contains(h),
        r@.no_duplicates(),
{
    let mut out: Vec<u64> = Vec::new();
    let ghost mut src: Seq<int> = Seq::empty();
    let ghost all = vstd::std_specs::iter::IteratorSpec::remaining(&vstd::std_specs::hash::spec_hash_map_iter(m));
    for (h, rec) in it: m.iter()
        invariant
            it.seq() == all,
            all == vstd::std_specs::iter::IteratorSpec::remaining(&vstd::std_specs::hash::spec_hash_map_iter(m)),
            all.no_duplicates(),
            forall|a: int| 0 <= a < out@.len() ==> m@.contains_key(#[trigger] out@[a]) && m@[out@[a]]@.ref_count == 0,
            forall|j: int| 0 <= j < it.index() && (*all[j].1)@.ref_count == 0 ==> #[trigger] out@.contains(*all[j].0),
            src.len() == out@.len(),
            forall|a: int| 0 <= a < out@.len() ==> 0 <= #[trigger] src[a] < it.index() && *all[src[a]].0 == out@[a],
            out@.no_duplicates(),
    {
        let ghost idx = it.index();
        let ghost before = out@;
        assert(*h == *all[idx].0);
        assert(*rec == *all[idx].1);
        assert(m@.contains_key(*h) && m@[*h] == *rec);
        if rec.ref_count == 0 {
            proof {
                assert forall|a: int| 0 <= a < before.len() implies before[a] != *h by {
                    let p = src[a];
                    assert(m@.contains_key(*all[p].0) && m@[*all[p].0] == *all[p].1);
                    if before[a] == *h {
                        assert(all[p] == all[idx]);
                    }
                }
            }
            out.push(*h);
            proof {
                src = src.push(idx);
            }
        }
        proof {
            assert forall|j: int| 0 <= j < idx + 1 && (*all[j].1)@.ref_count == 0 implies #[trigger] out@.contains(*all[j].0) by {
                if j < idx {
                    assert(before.contains(*all[j].0));
                    let t = choose|t: int| 0 <= t < before.len() && before[t] == *all[j].0;
                    assert(out@[t] == before[t]);
                } else {
                    assert(out@[out@.len() - 1] == *h);
                }
            }
        }
    }
    proof {
        assert forall|h: u64| m@.contains_key(h) && m@[h]@.ref_count == 0 implies #[trigger] out@.contains(h) by {
            assert(all.contains((&h, &m@[h])));
            let j = choose|j: int| 0 <= j < all.len() && all[j] == (&h, &m@[h]);
            assert(*all[j].0 == h);
        }
    }
    out
}

impl AssetTable {
    /// Every GUID in the index names a record that carries it.
    #[verifier::type_invariant]
    closed spec fn consistent(&self) -> bool {
        guids_consistent(self@)
    }

    /// An empty table.
    pub fn new() -> (t: Self)
        ensures
            t@.records == Map::<u64, AssetRecordView>::empty(),
            t@.guids == Map::<u128, u64>::empty(),
    {
        let t = AssetTable {
            records: std::collections::HashMap::new(),
            guid_index: std::collections::HashMap::new(),
        };
        proof {
            assert(t@.records =~= Map::<u64, AssetRecordView>::empty());
        }
        t
    }

    /// The record with a path hash.
    pub fn by_hash(&self, path_hash: u64) -> (r: Option<&AssetRecord>)
        ensures
            match r {
                Some(rec) => self@.records.contains_key(path_hash) && self@.records[path_hash]
                    == rec@,
                None => !self@.records.contains_key(path_hash),
            },
    {
        self.records.get(&path_hash)
    }

    /// The record a GUID names.
    pub fn by_guid(&self, guid: &u128) -> (r: Option<&AssetRecord>)
        ensures
            match r {
                Some(rec) => self@.guids.contains_key(*guid) && self@.records.contains_key(
                    self@.guids[*guid],
                ) && self@.records[self@.guids[*guid]] == rec@,
                None => !self@.guids.contains_key(*guid) || !self@.records.contains_key(
                    self@.guids[*guid],
                ),
            },
    {
        match self.guid_index.get(guid) {
            Some(h) => self.by_hash(*h),
            None => None,
        }
    }

    /// The record of a path (found by its path hash).
    pub fn by_path(&self, path: &str) -> (r: Option<&AssetRecord>)
        ensures
            match r {
                Some(rec) => self@.records.contains_key(path_hash(path@)) && self@.records[path_hash(
                    path@,
                )] == rec@,
                None => !self@.records.contains_key(path_hash(path@)),
            },
    {
        self.by_hash(fnv1a(path))
    }

    pub fn contains_guid(&self, guid: &u128) -> (b: bool)
        ensures
            b == self@.guids.contains_key(*guid),
    {
        self.guid_index.contains_key(guid)
    }

    pub fn contains_hash(&self, path_hash: u64) -> (b: bool)
        ensures
            b == self@.records.contains_key(path_hash),
    {
        self.records.contains_key(&path_hash)
    }

    pub fn contains_path(&self, path: &str) -> (b: bool)
        ensures
            b == self@.records.contains_key(path_hash(path@)),
    {
        self.contains_hash(fnv1a(path))
    }

    /// Add a record, replacing any with the same path hash; its GUID now
    /// names its path hash, and no other GUID does.
    pub fn insert(&mut self, record: AssetRecord)
        ensures
            final(self)@.records == old(self)@.records.insert(record@.path_hash, record@),
            final(self)@.guids == guids_renamed(old(self)@.guids, record@.guid, record@.path_hash),
    {
        proof {
            use_type_invariant(&*self);
        }
        let ghost t0 = self@;
        let ghost rv = record@;
        let h = record.id.path_hash;
        let g = record.id.guid;
        let mut records: std::collections::HashMap<u64, AssetRecord> = std::collections::HashMap::new();
        let mut guids: std::collections::HashMap<u128, u64> = std::collections::HashMap::new();
        std::mem::swap(&mut guids, &mut self.guid_index);
        std::mem::swap(&mut records, &mut self.records);
        // The GUID that names this hash, if any: by consistency, the GUID of
        // the record stored under it.
        let old_guid: Option<u128> = match records.get(&h) {
            Some(r) => Some(r.id.guid),
            None => None,
        };
        match old_guid {
            Some(g0) => {
                let names_h = match guids.get(&g0) {
                    Some(x) => *x == h,
                    None => false,
                };
                if names_h {
                    guids.remove(&g0);
                }
            },
            None => {},
        }
        proof {
            assert forall|k: u128| #[trigger] guids@.contains_key(k) implies guids@[k] != h by {
                assert(t0.guids.contains_key(k));
            }
        }
        records.insert(h, record);
        guids.insert(g, h);
        let ghost t1 = AssetTableView { records: records@.map_values(|r: AssetRecord| r@), guids: guids@ };
        proof {
            assert(t1.records =~= t0.records.insert(h, rv));
            assert(t1.guids =~= guids_renamed(t0.guids, g, h)) by {
                assert forall|k: u128| #[trigger] t1.guids.contains_key(k) == guids_renamed(t0.guids, g, h).contains_key(k) by {
                    if k != g && t0.guids.contains_key(k) && t0.guids[k] == h {
                        assert(t0.records[h].guid == k);
                    }
                }
            }
            lemma_guids_stay_consistent(t0, rv, h);
            assert(t1 == inserted(t0, rv));
        }
        self.records = records;
        self.guid_index = guids;
        proof {
            assert(self@ == t1);
        }
    }

    /// Remove the record with a path hash, and its GUID.
    pub fn evict(&mut self, path_hash: u64)
        ensures
            final(self)@.records == old(self)@.records.remove(path_hash),
            final(self)@.guids == if old(self)@.records.contains_key(path_hash) {
                old(self)@.guids.remove(old(self)@.records[path_hash].guid)
            } else {
                old(self)@.guids
            },
    {
        proof {
            use_type_invariant(&*self);
        }
        let ghost t0 = self@;
        if !self.records.contains_key(&path_hash) {
            proof {
                assert(t0.records =~= t0.records.remove(path_hash));
            }
            return ;
        }
        let mut records: std::collections::HashMap<u64, AssetRecord> = std::collections::HashMap::new();
        let mut guids: std::collections::HashMap<u128, u64> = std::collections::HashMap::new();
        std::mem::swap(&mut guids, &mut self.guid_index);
        std::mem::swap(&mut records, &mut self.records);
        let g = match records.get(&path_hash) {
            Some(r) => r.id.guid,
            None => 0,
        };
        guids.remove(&g);
        records.remove(&path_hash);
        let ghost t1 = AssetTableView { records: records@.map_values(|r: AssetRecord| r@), guids: guids@ };
        proof {
            assert(t1.records =~= t0.records.remove(path_hash));
            lemma_guids_stay_consistent(t0, t0.records[path_hash], path_hash);
            assert(t1 == evicted(t0, path_hash));
        }
        self.records = records;
        self.guid_index = guids;
        proof {
            assert(self@ == t1);
        }
    }

    /// Remove every record whose reference count is zero, with its GUID.
    pub fn evict_unreferenced(&mut self)
        ensures
            final(self)@.records == unreferenced_evicted(old(self)@.records),
            final(self)@.guids == old(self)@.guids.remove_keys(unreferenced_guids(old(self)@.records)),
    {
        let ghost old_map = self@.records;
        let ghost old_guids = self@.guids;
        let ghost self_records_old = self.records@;
        let to_evict = unreferenced_hashes(&self.records);
        proof {
            assert forall|a: int| 0 <= a < to_evict@.len() implies #[trigger] old_map.contains_key(to_evict@[a]) && old_map[to_evict@[a]].ref_count == 0 by {}
            assert(to_evict@.take(0).to_set() =~= Set::<u64>::empty());
            assert(old_map.remove_keys(Set::<u64>::empty()) =~= old_map);
            assert(evicted_guids(old_map, to_evict@.take(0)) =~= Set::<u128>::empty());
            assert(old_guids.remove_keys(Set::<u128>::empty()) =~= old_guids);
        }
        let m = to_evict.len();
        let mut k: usize = 0;
        while k < m
            invariant
                m == to_evict@.len(),
                k <= m,
                to_evict@.no_duplicates(),
                forall|a: int| 0 <= a < m ==> #[trigger] old_map.contains_key(to_evict@[a]) && old_map[to_evict@[a]].ref_count == 0,
                self@.records == old_map.remove_keys(to_evict@.take(k as int).to_set()),
                self@.guids == old_guids.remove_keys(evicted_guids(old_map, to_evict@.take(k as int))),
            decreases m - k,
        {
            let h = to_evict[k];
            proof {
                assert(!to_evict@.take(k as int).to_set().contains(h)) by {
                    if to_evict@.take(k as int).to_set().contains(h) {
                        let t = choose|t: int| 0 <= t < k && to_evict@.take(k as int)[t] == h;
                        assert(to_evict@[t] == to_evict@[k as int]);
                    }
                }
            }
            self.evict(h);
            proof {
                let t1 = to_evict@.take(k + 1);
                assert(t1 =~= to_evict@.take(k as int).push(h));
                assert forall|x: u64| #[trigger] t1.to_set().contains(x) == to_evict@.take(k as int).to_set().insert(h).contains(x) by {
                    if t1.contains(x) && x != h {
                        let t = choose|t: int| 0 <= t < t1.len() && t1[t] == x;
                        assert(to_evict@.take(k as int)[t] == x);
                    }
                    if to_evict@.take(k as int).contains(x) {
                        let t = choose|t: int| 0 <= t < k && to_evict@.take(k as int)[t] == x;
                        assert(t1[t] == x);
                    }
                    if x == h {
                        assert(t1[k as int] == h);
                    }
                }
                assert(t1.to_set() =~= to_evict@.take(k as int).to_set().insert(h));
                assert(self@.records =~= old_map.remove_keys(t1.to_set()));
                assert(evicted_guids(old_map, t1) =~= evicted_guids(old_map, to_evict@.take(k as int)).insert(old_map[h].guid)) by {
                    assert forall|g: u128| #[trigger] evicted_guids(old_map, t1).contains(g) == evicted_guids(old_map, to_evict@.take(k as int)).insert(old_map[h].guid).contains(g) by {
                        if evicted_guids(old_map, t1).contains(g) {
                            let a = choose|a: int| 0 <= a < t1.len() && #[trigger] old_map[t1[a]].guid == g;
                            if a < k {
                                assert(to_evict@.take(k as int)[a] == t1[a]);
                            }
                        }
                        if evicted_guids(old_map, to_evict@.take(k as int)).contains(g) {
                            let a = choose|a: int| 0 <= a < k && #[trigger] old_map[to_evict@.take(k as int)[a]].guid == g;
                            assert(t1[a] == to_evict@.take(k as int)[a]);
                        }
                        if g == old_map[h].guid {
                            assert(t1[k as int] == h);
                        }
                    }
                }
                assert(self@.guids =~= old_guids.remove_keys(evicted_guids(old_map, t1)));
            }
            k = k + 1;
        }
        proof {
            assert(to_evict@.take(m as int) =~= to_evict@);
            let ev = to_evict@.to_set();
            assert(old_map.remove_keys(ev) =~= unreferenced_evicted(old_map)) by {
                assert forall|h: u64| #[trigger] old_map.remove_keys(ev).contains_key(h) == unreferenced_evicted(old_map).contains_key(h) by {
                    if old_map.contains_key(h) && old_map[h].ref_count == 0 {
                        assert(self_records_old[h]@.ref_count == 0);
                        assert(to_evict@.contains(h));
                    }
                    if ev.contains(h) {
                        let a = choose|a: int| 0 <= a < to_evict@.len() && to_evict@[a] == h;
                        assert(old_map.contains_key(to_evict@[a]));
                    }
                }
            }
            assert(evicted_guids(old_map, to_evict@) =~= unreferenced_guids(old_map)) by {
                assert forall|g: u128| #[trigger] evicted_guids(old_map, to_evict@).contains(g) == unreferenced_guids(old_map).contains(g) by {
                    if evicted_guids(old_map, to_evict@).contains(g) {
                        let a = choose|a: int| 0 <= a < to_evict@.len() && #[trigger] old_map[to_evict@[a]].guid == g;
                        assert(old_map.contains_key(to_evict@[a]));
                    }
                    if unreferenced_guids(old_map).contains(g) {
                        let h = choose|h: u64| old_map.contains_key(h) && old_map[h].ref_count == 0 && #[trigger] old_map[h].guid == g;
                        assert(self_records_old[h]@.ref_count == 0);
                        assert(to_evict@.contains(h));
                        let a = choose|a: int| 0 <= a < to_evict@.len() && to_evict@[a] == h;
                        assert(old_map[to_evict@[a]].guid == g);
                    }
                }
            }
        }
    }

    /// The number of records.
    pub fn record_count(&self) -> (n: usize)
        ensures
            n == self@.records.dom().len(),
    {
        proof {
            assert(self@.records.dom() =~= self.records@.dom());
        }
        self.records.len()
    }
}

impl Default for AssetTable {
    fn default() -> (t: Self)
        ensures
            t@.records == Map::<u64, AssetRecordView>::empty(),
            t@.guids == Map::<u128, u64>::empty(),
    {
        AssetTable::new()
    }
}

// --- Laws of the table ---------------------------------------------------------------------

/// Taking a reference and dropping it leaves the count as it was, whatever
/// the count.
pub proof fn lemma_acquire_then_release(count: u32)
    ensures
        vstd::wrapping::u32_specs::wrapping_sub(vstd::wrapping::u32_specs::wrapping_add(count, 1), 1)
            == count,
{
}

/// The table after inserting record `r`.
pub open spec fn inserted(t: AssetTableView, r: AssetRecordView) -> AssetTableView {
    AssetTableView {
        records: t.records.insert(r.path_hash, r),
        guids: guids_renamed(t.guids, r.guid, r.path_hash),
    }
}

/// The table after evicting the record with hash `h` and its GUID.
pub open spec fn evicted(t: AssetTableView, h: u64) -> AssetTableView {
    AssetTableView {
        records: t.records.remove(h),
        guids: if t.records.contains_key(h) {
            t.guids.remove(t.records[h].guid)
        } else {
            t.guids
        },
    }
}

/// Every GUID in the index names a record that carries that GUID, so GUIDs
/// and path hashes correspond one to one.
pub open spec fn guids_consistent(t: AssetTableView) -> bool {
    forall|g: u128| #[trigger]
        t.guids.contains_key(g) ==> t.records.contains_key(t.guids[g]) && t.records[t.guids[g]].guid
            == g
}

/// A record just inserted is found by its path hash and by its GUID, and its
/// GUID is the only one naming its path hash.
pub proof fn lemma_insert_then_lookup(t: AssetTableView, r: AssetRecordView)
    ensures
        inserted(t, r).records.contains_key(r.path_hash),
        inserted(t, r).records[r.path_hash] == r,
        inserted(t, r).guids.contains_key(r.guid),
        inserted(t, r).records[inserted(t, r).guids[r.guid]] == r,
        forall|g: u128|
            #[trigger] inserted(t, r).guids.contains_key(g) && inserted(t, r).guids[g] == r.path_hash
                ==> g == r.guid,
{
}

/// Evicting a record that was just inserted leaves no record under its
/// path hash and drops its GUID.
pub proof fn lemma_insert_then_evict(t: AssetTableView, r: AssetRecordView)
    ensures
        !evicted(inserted(t, r), r.path_hash).records.contains_key(r.path_hash),
        !evicted(inserted(t, r), r.path_hash).guids.contains_key(r.guid),
{
}

/// Inserting and evicting keep GUIDs and path hashes in one-to-one
/// correspondence: a GUID replaced by re-inserting a path under a new GUID
/// leaves the index.
pub proof fn lemma_guids_stay_consistent(t: AssetTableView, r: AssetRecordView, h: u64)
    requires
        guids_consistent(t),
    ensures
        guids_consistent(inserted(t, r)),
        guids_consistent(evicted(t, h)),
{
    let u = inserted(t, r);
    assert forall|g: u128| #[trigger] u.guids.contains_key(g) implies u.records.contains_key(u.guids[g])
        && u.records[u.guids[g]].guid == g by {
        if g != r.guid {
            assert(t.guids.contains_key(g));
        }
    }
    let v = evicted(t, h);
    assert forall|g: u128| #[trigger] v.guids.contains_key(g) implies v.records.contains_key(v.guids[g])
        && v.records[v.guids[g]].guid == g by {
        assert(t.guids.contains_key(g));
    }
}

// --- GUID text in `.meta` sidecar files ---------------------------------------------

/// Why a `.meta` file's text is not a GUID.
#[derive(Clone, Copy, Debug, PartialEq, Eq, Structural)]
pub enum MetaError {
    InvalidGuid,
}

/// The lowercase hexadecimal digit of `d` (below 16).
pub open spec fn hex_char(d: u128) -> char {
    if d < 10 {
        ((d + 48) as u32) as char
    } else {
        ((d + 87) as u32) as char
    }
}

/// Hex digits `i .. i + n` of a GUID, most significant first.
pub open spec fn guid_hex(g: u128, i: int, n: int) -> Seq<char> {
    Seq::new(n as nat, |j: int| hex_char((g >> ((4 * (31 - (i + j))) as u128)) & 0xFu128))
}

/// The hyphenated text of a GUID (`Uuid`'s `Display`): 8-4-4-4-12 lowercase
/// hex digits.
pub open spec fn guid_text(g: u128) -> Seq<char> {
    guid_hex(g, 0, 8) + seq!['-'] + guid_hex(g, 8, 4) + seq!['-'] + guid_hex(g, 12, 4) + seq!['-']
        + guid_hex(g, 16, 4) + seq!['-'] + guid_hex(g, 20, 12)
}

/// `Uuid::from_u128` shown with `Display`: the hyphenated lowercase form.
#[verifier::external_body]
fn guid_to_text(g: u128) -> (s: String)
    ensures
        s@ == guid_text(g),
{
    uuid::Uuid::from_u128(g).to_string()
}

/// What `Uuid::parse_str` gives for a text, as a number.
pub uninterp spec fn parsed_guid(s: Seq<char>) -> Option<u128>;

/// `Uuid::parse_str`, read back with `Uuid::as_u128`. The contract names the
/// result and states that the hyphenated form of a GUID parses to it.
#[verifier::external_body]
fn parse_guid(s: &str) -> (r: Option<u128>)
    ensures
        r == parsed_guid(s@),
        forall|g: u128| #[trigger] guid_text(g) == s@ ==> r == Some(g),
{
    match uuid::Uuid::parse_str(s) {
        Ok(u) => Some(u.as_u128()),
        Err(_) => None,
    }
}

/// `s` without its leading whitespace characters.
pub open spec fn trim_start_ws(s: Seq<char>) -> Seq<char>
    decreases s.len(),
{
    if s.len() > 0 && unicode_whitespace(s[0]) {
        trim_start_ws(s.drop_first())
    } else {
        s
    }
}

/// `s` without its trailing whitespace characters.
pub open spec fn trim_end_ws(s: Seq<char>) -> Seq<char>
    decreases s.len(),
{
    if s.len() > 0 && unicode_whitespace(s.last()) {
        trim_end_ws(s.drop_last())
    } else {
        s
    }
}

/// What `str::trim` gives for a text: the text without its leading and
/// trailing characters of the Unicode `White_Space` property.
pub open spec fn trimmed(s: Seq<char>) -> Seq<char> {
    trim_end_ws(trim_start_ws(s))
}

/// An ASCII letter or digit.
pub open spec fn ascii_alphanumeric(c: char) -> bool {
    ('0' <= c && c <= '9') || ('a' <= c && c <= 'z') || ('A' <= c && c <= 'Z')
}

/// `str::trim`: the text without leading and trailing whitespace (the
/// `White_Space` property that `char::is_whitespace` tests). The contract
/// also states that text which begins and ends with an ASCII letter or digit
/// is kept whole.
#[verifier::external_body]
fn trim(s: &str) -> (r: &str)
    ensures
        r@ == trimmed(s@),
        s@.len() > 0 && ascii_alphanumeric(s@[0]) && ascii_alphanumeric(s@.last()) ==> r@ == s@,
{
    s.trim()
}

/// The text of a `.meta` sidecar file holding a GUID.
pub fn meta_text(guid: u128) -> (s: String)
    ensures
        s@ == guid_text(guid),
{
    guid_to_text(guid)
}

/// The GUID a `.meta` sidecar file's text holds (surrounding whitespace is
/// ignored).
pub fn guid_from_meta(content: &str) -> (r: Result<u128, MetaError>)
    ensures
        match parsed_guid(trimmed(content@)) {
            Some(g) => r == Ok::<u128, MetaError>(g),
            None => r == Err::<u128, MetaError>(MetaError::InvalidGuid),
        },
        forall|g: u128| #[trigger] guid_text(g) == content@ ==> r == Ok::<u128, MetaError>(g),
{
    let t = trim(content);
    proof {
        assert forall|g: u128| #[trigger] guid_text(g) == content@ implies t@ == content@ by {
            let x = (g >> ((4 * 31) as u128)) & 0xFu128;
            let y = (g >> ((4 * (31 - 31)) as u128)) & 0xFu128;
            assert(x < 16) by (bit_vector)
                requires
                    x == (g >> ((4 * 31) as u128)) & 0xFu128,
            ;
            assert(y < 16) by (bit_vector)
                requires
                    y == (g >> ((4 * (31 - 31)) as u128)) & 0xFu128,
            ;
            assert(guid_text(g)[0] == hex_char(x));
            assert(guid_text(g).last() == hex_char(y));
            lemma_hex_char_alphanumeric(x);
            lemma_hex_char_alphanumeric(y);
        }
    }
    match parse_guid(t) {
        Some(g) => Ok(g),
        None => Err(MetaError::InvalidGuid),
    }
}

proof fn lemma_hex_char_alphanumeric(d: u128)
    requires
        d < 16,
    ensures
        ascii_alphanumeric(hex_char(d)),
{
}

} // verus!
