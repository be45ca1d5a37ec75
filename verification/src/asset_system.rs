//! Finding assets in open archives and keeping them in the asset table.
//! Archives are searched in the order they were added; what is found is
//! cached in the table with one reference taken. Reading loose files from
//! disk is left to the caller (see `loose_path` and `insert_loose`).

use vstd::prelude::*;

use crate::asset_id::{
    guid_text, inserted, is_v4_guid, meta_text, AssetId, AssetRecord, AssetRecordView, AssetTable,
    AssetTableView, DataSource, LoadStateView,
};
use crate::wpak::{
    fnv1a, guid_for_hash, normalize_path, normalized_path, path_for_hash, path_hash, read_result,
    ArchiveView, Compression, WpakArchive, WpakError,
};

verus! {

/// Why an asset could not be had.
#[derive(Clone, Copy, Debug, PartialEq, Eq, Structural)]
pub enum AssetError {
    /// No open archive holds it.
    NotFound,
    /// The archive that holds it could not give its bytes.
    Read(WpakError),
}

/// Open archives, the asset table, the loose-file directory and the
/// compression used when packing.
pub struct AssetSystem {
    archives: Vec<WpakArchive>,
    table: AssetTable,
    loose_dir: Option<String>,
    compression: Compression,
}

pub ghost struct AssetSystemView {
    pub archives: Seq<ArchiveView>,
    pub table: AssetTableView,
    pub loose_dir: Option<Seq<char>>,
    pub compression: Compression,
}

impl View for AssetSystem {
    type V = AssetSystemView;

    closed spec fn view(&self) -> AssetSystemView {
        AssetSystemView {
            archives: self.archives@.map_values(|a: WpakArchive| a@),
            table: self.table@,
            loose_dir: match self.loose_dir {
                Some(d) => Some(d@),
                None => None,
            },
            compression: self.compression,
        }
    }
}

/// Archive `i` holds hash `h` and no archive before it does.
pub open spec fn first_holding(archs: Seq<ArchiveView>, h: u64, i: int) -> bool {
    &&& 0 <= i < archs.len()
    &&& path_for_hash(archs[i].records, h) is Some
    &&& forall|j: int| 0 <= j < i ==> path_for_hash(#[trigger] archs[j].records, h) is None
}

/// The first archive holding hash `h`.
pub open spec fn archive_holding(archs: Seq<ArchiveView>, h: u64) -> Option<int> {
    if exists|i: int| first_holding(archs, h, i) {
        Some(choose|i: int| first_holding(archs, h, i))
    } else {
        None
    }
}

/// Some path hash of archive `a` has GUID `g`.
pub open spec fn has_guid(a: ArchiveView, g: u128) -> bool {
    exists|h: u64| #[trigger] guid_for_hash(a.records, h) == Some(g)
}

/// Archive `i` has GUID `g` and no archive before it does.
pub open spec fn first_with_guid(archs: Seq<ArchiveView>, g: u128, i: int) -> bool {
    &&& 0 <= i < archs.len()
    &&& has_guid(archs[i], g)
    &&& forall|j: int| 0 <= j < i ==> !has_guid(#[trigger] archs[j], g)
}

/// The first archive with GUID `g`.
pub open spec fn archive_with_guid(archs: Seq<ArchiveView>, g: u128) -> Option<int> {
    if exists|i: int| first_with_guid(archs, g, i) {
        Some(choose|i: int| first_with_guid(archs, g, i))
    } else {
        None
    }
}

/// `p` is a stored path of archive `a` under a hash whose GUID is `g`.
pub open spec fn guid_path(a: ArchiveView, g: u128, p: Seq<char>) -> bool {
    exists|h: u64| #[trigger] guid_for_hash(a.records, h) == Some(g) && path_for_hash(a.records, h) == Some(p)
}

/// Archive `i` has a GUID for hash `h` and no archive before it does.
pub open spec fn first_guid_for(archs: Seq<ArchiveView>, h: u64, i: int) -> bool {
    &&& 0 <= i < archs.len()
    &&& guid_for_hash(archs[i].records, h) is Some
    &&& forall|j: int| 0 <= j < i ==> guid_for_hash(#[trigger] archs[j].records, h) is None
}

/// The first archive with a GUID for hash `h`.
pub open spec fn first_guid_archive(archs: Seq<ArchiveView>, h: u64) -> Option<int> {
    if exists|i: int| first_guid_for(archs, h, i) {
        Some(choose|i: int| first_guid_for(archs, h, i))
    } else {
        None
    }
}

/// The GUID of hash `h` in the first archive that has one.
pub open spec fn guid_of_first(archs: Seq<ArchiveView>, h: u64) -> Option<u128> {
    match first_guid_archive(archs, h) {
        Some(i) => guid_for_hash(archs[i].records, h),
        None => None,
    }
}

/// The record cached for an asset read from archive `i`: loaded with the
/// bytes, one reference taken.
pub open spec fn cached_record(r: AssetRecordView, bytes: Seq<u8>, i: int) -> bool {
    &&& r.data_source == DataSource::Archive { archive_index: i as usize }
    &&& r.ref_count == 1
    &&& r.state == LoadStateView::Loaded
    &&& r.data == Some(bytes)
}

/// What fetching path `p` from archive `i` under a GUID gives: the read
/// error with nothing changed, or the bytes, cached.
pub open spec fn fetched(
    before: AssetSystemView,
    after: AssetSystemView,
    r: Result<Vec<u8>, AssetError>,
    i: int,
    guid: u128,
    p: Seq<char>,
) -> bool {
    match read_result(before.archives[i].bytes, before.archives[i].records, p) {
        Err(e) => r == Err::<Vec<u8>, AssetError>(AssetError::Read(e)) && after == before,
        Ok(bytes) => {
            let rec = after.table.records[path_hash(p)];
            &&& r matches Ok(v) && v@ == bytes
            &&& after == (AssetSystemView { table: table_with(before.table, rec), ..before })
            &&& rec.path_hash == path_hash(p)
            &&& rec.path == normalized_path(p)
            &&& rec.guid == guid
            &&& cached_record(rec, bytes, i)
        },
    }
}

/// Fetching some stored path with GUID `guid` from archive `i`.
pub open spec fn fetched_some(
    before: AssetSystemView,
    after: AssetSystemView,
    r: Result<Vec<u8>, AssetError>,
    i: int,
    guid: u128,
) -> bool {
    exists|p: Seq<char>|
        #[trigger] guid_path(before.archives[i], guid, p) && fetched(before, after, r, i, guid, p)
}

/// The table after caching record `r`.
pub open spec fn table_with(t: AssetTableView, r: AssetRecordView) -> AssetTableView {
    inserted(t, r)
}

/// Whether the table has the bytes of the record with hash `h`.
pub open spec fn cached_bytes(t: AssetTableView, h: u64) -> Option<Seq<u8>> {
    if t.records.contains_key(h) {
        t.records[h].data
    } else {
        None
    }
}

/// Whether the table has the bytes of the record a GUID names.
pub open spec fn cached_guid_bytes(t: AssetTableView, g: u128) -> Option<Seq<u8>> {
    if t.guids.contains_key(g) && t.records.contains_key(t.guids[g]) {
        t.records[t.guids[g]].data
    } else {
        None
    }
}

impl AssetSystem {
    /// No archives, an empty table, no loose directory, no compression.
    pub fn new() -> (s: Self)
        ensures
            s@.archives == Seq::<ArchiveView>::empty(),
            s@.table.records == Map::<u64, AssetRecordView>::empty(),
            s@.table.guids == Map::<u128, u64>::empty(),
            s@.loose_dir is None,
            s@.compression == Compression::Raw,
    {
        let s = AssetSystem {
            archives: Vec::new(),
            table: AssetTable::new(),
            loose_dir: None,
            compression: Compression::Raw,
        };
        proof {
            assert(s@.archives =~= Seq::<ArchiveView>::empty());
        }
        s
    }

    /// A system over archives already opened, in search order, with an
    /// optional directory of loose files.
    pub fn with_archives(archives: Vec<WpakArchive>, loose_dir: Option<String>) -> (s: Self)
        ensures
            s@.archives == archives@.map_values(|a: WpakArchive| a@),
            s@.table.records == Map::<u64, AssetRecordView>::empty(),
            s@.table.guids == Map::<u128, u64>::empty(),
            s@.loose_dir == (match loose_dir {
                Some(d) => Some(d@),
                None => None::<Seq<char>>,
            }),
            s@.compression == Compression::Raw,
    {
        AssetSystem { archives, table: AssetTable::new(), loose_dir, compression: Compression::Raw }
    }

    /// Search `archive` after the archives already open.
    pub fn add_archive(&mut self, archive: WpakArchive)
        ensures
            final(self)@ == (AssetSystemView { archives: old(self)@.archives.push(archive@), ..old(self)@ }),
    {
        self.archives.push(archive);
        proof {
            assert(self@.archives =~= old(self)@.archives.push(archive@));
        }
    }

    /// The compression used when packing.
    pub fn set_compression(&mut self, compression: Compression)
        ensures
            final(self)@ == (AssetSystemView { compression, ..old(self)@ }),
    {
        self.compression = compression;
    }

    pub fn compression(&self) -> (c: Compression)
        ensures
            c == self@.compression,
    {
        self.compression
    }

    /// The asset table.
    pub fn table(&self) -> (t: &AssetTable)
        ensures
            t@ == self@.table,
    {
        &self.table
    }

    /// The asset table, to change.
    pub fn table_mut(&mut self) -> (t: &mut AssetTable)
        ensures
            t@ == old(self)@.table,
            final(self)@ == (AssetSystemView { table: final(t)@, ..old(self)@ }),
    {
        &mut self.table
    }

    /// The index of the first archive that holds a normalized path.
    fn find_archive_source(&self, normalized: &str) -> (r: Option<usize>)
        ensures
            match r {
                Some(i) => first_holding(self@.archives, path_hash(normalized@), i as int),
                None => archive_holding(self@.archives, path_hash(normalized@)) is None,
            },
    {
        let ghost h = path_hash(normalized@);
        let ghost archs = self@.archives;
        let n = self.archives.len();
        let mut i: usize = 0;
        while i < n
            invariant
                n == self.archives@.len(),
                archs == self@.archives,
                archs.len() == n,
                h == path_hash(normalized@),
                i <= n,
                forall|j: int| 0 <= j < i ==> path_for_hash(#[trigger] archs[j].records, h) is None,
            decreases n - i,
        {
            proof {
                assert(archs[i as int] == self.archives@[i as int]@);
            }
            if self.archives[i].resolve_path(normalized).is_some() {
                return Some(i);
            }
            i = i + 1;
        }
        proof {
            assert(!exists|k: int| first_holding(archs, h, k));
        }
        None
    }

    /// Whether a path can be resolved, without loading anything: cached in
    /// the table, held by an archive, or present as a loose file.
    /// `loose_file_exists` tells whether a file exists at `loose_path(path)`;
    /// the caller looks at the file system.
    pub fn contains(&self, path: &str, loose_file_exists: bool) -> (b: bool)
        ensures
            b == (self@.table.records.contains_key(path_hash(normalized_path(path@))) || archive_holding(
                self@.archives,
                path_hash(normalized_path(path@)),
            ) is Some || (self@.loose_dir is Some && loose_file_exists)),
    {
        let normalized = normalize_path(path);
        if self.table.contains_path(normalized.as_str()) {
            return true;
        }
        if self.loose_dir.is_some() && loose_file_exists {
            return true;
        }
        let found = self.find_archive_source(normalized.as_str());
        proof {
            lemma_first_holding_is(self@.archives, path_hash(normalized@));
        }
        found.is_some()
    }

    /// The bytes of an asset: from the table when cached there, else read
    /// from the first archive that holds it and cached with one reference
    /// taken. `NotFound` when no archive holds it (the caller may then look
    /// for a loose file).
    pub fn get_bytes(&mut self, path: &str) -> (r: Result<Vec<u8>, AssetError>)
        ensures
            ({
                let np = normalized_path(path@);
                let h = path_hash(np);
                match cached_bytes(old(self)@.table, h) {
                    Some(d) => r matches Ok(v) && v@ == d && final(self)@ == old(self)@,
                    None => match archive_holding(old(self)@.archives, h) {
                        None => r == Err::<Vec<u8>, AssetError>(AssetError::NotFound) && final(self)@
                            == old(self)@,
                        Some(i) => {
                            let a = old(self)@.archives[i];
                            match read_result(a.bytes, a.records, np) {
                                Err(e) => r == Err::<Vec<u8>, AssetError>(AssetError::Read(e))
                                    && final(self)@ == old(self)@,
                                Ok(bytes) => {
                                    let rec = final(self)@.table.records[h];
                                    &&& r matches Ok(v) && v@ == bytes
                                    &&& final(self)@ == (AssetSystemView {
                                        table: table_with(old(self)@.table, rec),
                                        ..old(self)@
                                    })
                                    &&& rec.path_hash == h
                                    &&& rec.path == normalized_path(np)
                                    &&& match guid_for_hash(a.records, h) {
                                        Some(g) => rec.guid == g,
                                        None => is_v4_guid(rec.guid),
                                    }
                                    &&& cached_record(rec, bytes, i)
                                },
                            }
                        },
                    },
                }
            }),
    {
        let normalized = normalize_path(path);
        let ghost np = normalized@;
        let h = fnv1a(normalized.as_str());
        match self.table.by_hash(h) {
            Some(record) => {
                match record.data() {
                    Some(d) => {
                        return Ok(d.clone());
                    },
                    None => {},
                }
            },
            None => {},
        }
        let src = self.find_archive_source(normalized.as_str());
        proof {
            lemma_first_holding_is(self@.archives, h);
        }
        let idx = match src {
            Some(i) => i,
            None => {
                return Err(AssetError::NotFound);
            },
        };
        proof {
            assert(self@.archives[idx as int] == self.archives@[idx as int]@);
        }
        let bytes = match self.archives[idx].read(normalized.as_str()) {
            Ok(b) => b,
            Err(e) => {
                return Err(AssetError::Read(e));
            },
        };
        let guid = self.archives[idx].resolve_guid(normalized.as_str());
        let id = match guid {
            Some(g) => AssetId::for_path_with_guid(normalized.as_str(), g),
            None => AssetId::for_path(normalized.as_str()),
        };
        let mut record = AssetRecord::new(id, DataSource::Archive { archive_index: idx });
        record.set_data(bytes.clone());
        record.acquire();
        let ghost rec = record@;
        self.table.insert(record);
        proof {
            assert(self@.table.records[h] == rec);
            assert(self@.table =~= table_with(old(self)@.table, rec));
            assert(self@.archives =~= old(self)@.archives);
        }
        Ok(bytes)
    }

    /// The index of the first archive with a GUID.
    fn find_guid_source(&self, guid: u128) -> (r: Option<(usize, String)>)
        ensures
            match r {
                Some((i, p)) => first_with_guid(self@.archives, guid, i as int) && guid_path(
                    self@.archives[i as int],
                    guid,
                    p@,
                ),
                None => archive_with_guid(self@.archives, guid) is None,
            },
    {
        let ghost archs = self@.archives;
        let n = self.archives.len();
        let mut i: usize = 0;
        while i < n
            invariant
                n == self.archives@.len(),
                archs == self@.archives,
                archs.len() == n,
                i <= n,
                forall|j: int| 0 <= j < i ==> !has_guid(#[trigger] archs[j], guid),
            decreases n - i,
        {
            proof {
                assert(archs[i as int] == self.archives@[i as int]@);
            }
            match self.archives[i].resolve_guid_path(guid) {
                Some(p) => {
                    return Some((i, p));
                },
                None => {},
            }
            i = i + 1;
        }
        proof {
            assert(!exists|k: int| first_with_guid(archs, guid, k));
        }
        None
    }

    /// The stored path of the asset with a GUID, from the first archive that
    /// has the GUID.
    pub fn resolve_guid_path(&self, guid: u128) -> (r: Option<String>)
        ensures
            match archive_with_guid(self@.archives, guid) {
                None => r is None,
                Some(i) => r matches Some(p) && guid_path(self@.archives[i], guid, p@),
            },
    {
        let found = self.find_guid_source(guid);
        proof {
            lemma_first_with_guid_is(self@.archives, guid);
        }
        match found {
            Some((_, p)) => Some(p),
            None => None,
        }
    }

    /// The bytes of the asset with a GUID: from the table when cached there,
    /// else read from the first archive with that GUID and cached with one
    /// reference taken.
    /// Read a path from archive `idx` and cache it under a GUID.
    fn fetch_for_guid(&mut self, idx: usize, path: String, guid: u128) -> (r: Result<Vec<u8>, AssetError>)
        requires
            idx < old(self)@.archives.len(),
        ensures
            fetched(old(self)@, final(self)@, r, idx as int, guid, path@),
    {
        proof {
            assert(self@.archives[idx as int] == self.archives@[idx as int]@);
        }
        let bytes = match self.archives[idx].read(path.as_str()) {
            Ok(b) => b,
            Err(e) => {
                return Err(AssetError::Read(e));
            },
        };
        let id = AssetId::for_path_with_guid(path.as_str(), guid);
        let mut record = AssetRecord::new(id, DataSource::Archive { archive_index: idx });
        record.set_data(bytes.clone());
        record.acquire();
        let ghost rec = record@;
        self.table.insert(record);
        proof {
            assert(self@.table.records[path_hash(path@)] == rec);
            assert(self@.table =~= table_with(old(self)@.table, rec));
            assert(self@.archives =~= old(self)@.archives);
        }
        Ok(bytes)
    }

    /// The bytes cached for a GUID, if any.
    fn cached_by_guid(&self, guid: u128) -> (r: Option<Vec<u8>>)
        ensures
            match cached_guid_bytes(self@.table, guid) {
                Some(d) => r matches Some(v) && v@ == d,
                None => r is None,
            },
    {
        match self.table.by_guid(&guid) {
            Some(record) => match record.data() {
                Some(d) => Some(d.clone()),
                None => None,
            },
            None => None,
        }
    }

    /// The bytes of the asset with a GUID: from the table when cached there,
    /// else read from the first archive with that GUID and cached with one
    /// reference taken.
    pub fn get_bytes_by_guid(&mut self, guid: u128) -> (r: Result<Vec<u8>, AssetError>)
        ensures
            match cached_guid_bytes(old(self)@.table, guid) {
                Some(d) => r matches Ok(v) && v@ == d && final(self)@ == old(self)@,
                None => match archive_with_guid(old(self)@.archives, guid) {
                    None => r == Err::<Vec<u8>, AssetError>(AssetError::NotFound) && final(self)@
                        == old(self)@,
                    Some(i) => fetched_some(old(self)@, final(self)@, r, i, guid),
                },
            },
    {
        match self.cached_by_guid(guid) {
            Some(d) => {
                return Ok(d);
            },
            None => {},
        }
        let found = self.find_guid_source(guid);
        proof {
            lemma_first_with_guid_is(self@.archives, guid);
        }
        let (idx, path) = match found {
            Some(f) => f,
            None => {
                return Err(AssetError::NotFound);
            },
        };
        let ghost p = path@;
        let r = self.fetch_for_guid(idx, path, guid);
        proof {
            // `p` witnesses the existential in `fetched_some`.
            assert(guid_path(old(self)@.archives[idx as int], guid, p) && fetched(
                old(self)@,
                self@,
                r,
                idx as int,
                guid,
                p,
            ));
        }
        r
    }

    /// Every (path hash, GUID) pair of the open archives, each hash once,
    /// with the GUID of the first archive that has one for it.
    pub fn all_guid_pairs(&self) -> (r: Vec<(u64, u128)>)
        ensures
            forall|i: int, j: int| 0 <= i < j < r@.len() ==> (#[trigger] r@[i]).0 != (#[trigger] r@[j]).0,
            forall|i: int|
                0 <= i < r@.len() ==> guid_of_first(self@.archives, (#[trigger] r@[i]).0) == Some(
                    r@[i].1,
                ),
            forall|h: u64|
                #![trigger guid_of_first(self@.archives, h)]
                guid_of_first(self@.archives, h) is Some ==> exists|i: int|
                    0 <= i < r@.len() && (#[trigger] r@[i]).0 == h,
    {
        let ghost archs = self@.archives;
        let n = self.archives.len();
        let mut out: Vec<(u64, u128)> = Vec::new();
        let mut a: usize = 0;
        while a < n
            invariant
                n == self.archives@.len(),
                archs == self@.archives,
                archs.len() == n,
                a <= n,
                forall|i: int, j: int| 0 <= i < j < out@.len() ==> (#[trigger] out@[i]).0 != (#[trigger] out@[j]).0,
                forall|i: int|
                    0 <= i < out@.len() ==> guid_of_first(archs, (#[trigger] out@[i]).0) == Some(out@[i].1),
                forall|h: u64, b: int|
                    0 <= b < a && (#[trigger] guid_for_hash(archs[b].records, h)) is Some ==> exists|i: int|
                        0 <= i < out@.len() && (#[trigger] out@[i]).0 == h,
            decreases n - a,
        {
            proof {
                assert(archs[a as int] == self.archives@[a as int]@);
            }
            let pairs = self.archives[a].all_guids();
            let ghost before = out@;
            let m = pairs.len();
            let mut k: usize = 0;
            while k < m
                invariant
                    n == archs.len(),
                    a < n,
                    m == pairs@.len(),
                    k <= m,
                    forall|i: int|
                        0 <= i < pairs@.len() ==> guid_for_hash(
                            archs[a as int].records,
                            (#[trigger] pairs@[i]).0,
                        ) == Some(pairs@[i].1),
                    before.len() <= out@.len(),
                    forall|i: int| 0 <= i < before.len() ==> #[trigger] out@[i] == before[i],
                    forall|i: int, j: int| 0 <= i < j < out@.len() ==> (#[trigger] out@[i]).0 != (#[trigger] out@[j]).0,
                    forall|i: int|
                        0 <= i < out@.len() ==> guid_of_first(archs, (#[trigger] out@[i]).0) == Some(out@[i].1),
                    forall|h: u64, b: int|
                        0 <= b < a && (#[trigger] guid_for_hash(archs[b].records, h)) is Some ==> exists|i: int|
                            0 <= i < before.len() && (#[trigger] before[i]).0 == h,
                    forall|j: int|
                        0 <= j < k ==> exists|i: int| 0 <= i < out@.len() && (#[trigger] out@[i]).0 == (#[trigger] pairs@[j]).0,
                decreases m - k,
            {
                let (h, g) = pairs[k];
                let ghost prev = out@;
                let mut seen = false;
                let mut i: usize = 0;
                while i < out.len()
                    invariant
                        i <= out@.len(),
                        seen == exists|j: int| 0 <= j < i && (#[trigger] out@[j]).0 == h,
                    decreases out@.len() - i,
                {
                    if out[i].0 == h {
                        seen = true;
                    }
                    i = i + 1;
                }
                if !seen {
                    proof {
                        assert(pairs@[k as int] == (h, g));
                        assert(guid_for_hash(archs[a as int].records, h) == Some(g));
                        assert forall|b: int| 0 <= b < a implies guid_for_hash(#[trigger] archs[b].records, h) is None by {
                            if guid_for_hash(archs[b].records, h) is Some {
                                let i2 = choose|i2: int| 0 <= i2 < before.len() && (#[trigger] before[i2]).0 == h;
                                assert(out@[i2] == before[i2]);
                            }
                        }
                        assert(first_guid_for(archs, h, a as int));
                        lemma_first_guid_is(archs, h);
                    }
                    out.push((h, g));
                    proof {
                        assert(out@[out@.len() - 1].0 == h);
                    }
                }
                proof {
                    assert(pairs@[k as int] == (h, g));
                    assert(prev.len() <= out@.len());
                    assert forall|i: int| 0 <= i < prev.len() implies #[trigger] out@[i] == prev[i] by {}
                    assert forall|j: int| 0 <= j < k + 1 implies exists|i: int|
                        0 <= i < out@.len() && (#[trigger] out@[i]).0 == (#[trigger] pairs@[j]).0 by {
                        if j < k {
                            let i0 = choose|i0: int| 0 <= i0 < prev.len() && (#[trigger] prev[i0]).0 == pairs@[j].0;
                            assert(out@[i0] == prev[i0]);
                        } else if seen {
                            let i0 = choose|i0: int| 0 <= i0 < prev.len() && (#[trigger] prev[i0]).0 == h;
                            assert(out@[i0] == prev[i0]);
                        } else {
                            assert(out@[prev.len() as int].0 == h);
                        }
                    }
                }
                k = k + 1;
            }
            proof {
                assert forall|h: u64, b: int|
                    0 <= b < a + 1 && (#[trigger] guid_for_hash(archs[b].records, h)) is Some implies exists|i: int|
                    0 <= i < out@.len() && (#[trigger] out@[i]).0 == h by {
                    if b < a {
                        let i = choose|i: int| 0 <= i < before.len() && (#[trigger] before[i]).0 == h;
                        assert(out@[i] == before[i]);
                    } else {
                        let j = choose|j: int| 0 <= j < pairs@.len() && (#[trigger] pairs@[j]).0 == h;
                    }
                }
            }
            a = a + 1;
        }
        proof {
            assert forall|h: u64| #[trigger] guid_of_first(archs, h) is Some implies exists|i: int|
                0 <= i < out@.len() && (#[trigger] out@[i]).0 == h by {
                let b = choose|b: int| first_guid_for(archs, h, b);
                assert(guid_for_hash(archs[b].records, h) is Some);
            }
        }
        out
    }

    /// Where a loose file for a path would be: the loose directory joined
    /// with the normalized path.
    pub fn loose_path(&self, path: &str) -> (r: Option<String>)
        ensures
            match self@.loose_dir {
                None => r is None,
                Some(d) => r matches Some(p) && p@ == d + seq!['/'] + normalized_path(path@),
            },
    {
        match &self.loose_dir {
            None => None,
            Some(d) => {
                let normalized = normalize_path(path);
                proof {
                    reveal_strlit("/");
                }
                let mut p = String::from_str(d.as_str());
                p.append("/");
                p.append(normalized.as_str());
                Some(p)
            },
        }
    }

    /// Cache the bytes of a loose file read for a path (no reference is
    /// taken).
    pub fn insert_loose(&mut self, path: &str, bytes: Vec<u8>)
        ensures
            ({
                let np = normalized_path(path@);
                let rec = final(self)@.table.records[path_hash(np)];
                &&& final(self)@ == (AssetSystemView {
                    table: table_with(old(self)@.table, rec),
                    ..old(self)@
                })
                &&& rec.path_hash == path_hash(np)
                &&& rec.path == normalized_path(np)
                &&& is_v4_guid(rec.guid)
                &&& rec.data_source == DataSource::Loose
                &&& rec.ref_count == 0
                &&& rec.state == LoadStateView::Loaded
                &&& rec.data == Some(bytes@)
            }),
    {
        let normalized = normalize_path(path);
        let id = AssetId::for_path(normalized.as_str());
        let mut record = AssetRecord::new(id, DataSource::Loose);
        record.set_data(bytes);
        let ghost rec = record@;
        self.table.insert(record);
        proof {
            assert(self@.table =~= table_with(old(self)@.table, rec));
        }
    }
}

impl AssetSystem {
    /// The id a background load by path reports: when the load succeeded,
    /// the path with the GUID the first archive records for its hash (a
    /// fresh random GUID when none does); otherwise the path with a fresh
    /// random GUID.
    pub fn load_id_for_path(&self, path: &str, loaded: bool) -> (id: AssetId)
        ensures
            id.path_hash == path_hash(path@),
            id.path@ == normalized_path(path@),
            loaded && guid_of_first(self@.archives, path_hash(path@)) is Some ==> id.guid
                == guid_of_first(self@.archives, path_hash(path@))->Some_0,
            !(loaded && guid_of_first(self@.archives, path_hash(path@)) is Some) ==> is_v4_guid(
                id.guid,
            ),
    {
        if !loaded {
            return AssetId::for_path(path);
        }
        let pairs = self.all_guid_pairs();
        let h = fnv1a(path);
        let mut i: usize = 0;
        while i < pairs.len()
            invariant
                i <= pairs@.len(),
                h == path_hash(path@),
                loaded,
                forall|j: int| 0 <= j < i ==> pairs@[j].0 != h,
                forall|j: int|
                    0 <= j < pairs@.len() ==> guid_of_first(self@.archives, (#[trigger] pairs@[j]).0)
                        == Some(pairs@[j].1),
            decreases pairs@.len() - i,
        {
            if pairs[i].0 == h {
                return AssetId::for_path_with_guid(path, pairs[i].1);
            }
            i = i + 1;
        }
        proof {
            if guid_of_first(self@.archives, h) is Some {
                let j = choose|j: int| 0 <= j < pairs@.len() && (#[trigger] pairs@[j]).0 == h;
            }
        }
        AssetId::for_path(path)
    }

    /// The id a background load by GUID reports: when the load succeeded,
    /// the stored path of the GUID (its text when no archive has one);
    /// otherwise the GUID's text as path with path hash 0.
    pub fn load_id_for_guid(&self, guid: u128, loaded: bool) -> (id: AssetId)
        ensures
            id.guid == guid,
            !loaded ==> id.path_hash == 0 && id.path@ == guid_text(guid),
            loaded ==> match archive_with_guid(self@.archives, guid) {
                None => id.path_hash == path_hash(guid_text(guid)) && id.path@ == normalized_path(
                    guid_text(guid),
                ),
                Some(i) => exists|p: Seq<char>|
                    #![trigger guid_path(self@.archives[i], guid, p)]
                    guid_path(self@.archives[i], guid, p) && id.path_hash == path_hash(p)
                        && id.path@ == normalized_path(p),
            },
    {
        if !loaded {
            return AssetId { guid, path_hash: 0, path: meta_text(guid) };
        }
        match self.resolve_guid_path(guid) {
            Some(p) => AssetId::for_path_with_guid(p.as_str(), guid),
            None => {
                let t = meta_text(guid);
                AssetId::for_path_with_guid(t.as_str(), guid)
            },
        }
    }
}

impl Default for AssetSystem {
    fn default() -> (s: Self)
        ensures
            s@.archives == Seq::<ArchiveView>::empty(),
            s@.table.records == Map::<u64, AssetRecordView>::empty(),
            s@.table.guids == Map::<u128, u64>::empty(),
            s@.loose_dir is None,
            s@.compression == Compression::Raw,
    {
        AssetSystem::new()
    }
}

/// Once an asset has been read and cached, asking again gives the same
/// bytes from the table, by path hash and by GUID.
pub proof fn lemma_read_then_cached(t: AssetTableView, rec: AssetRecordView, bytes: Seq<u8>)
    requires
        rec.data == Some(bytes),
    ensures
        cached_bytes(table_with(t, rec), rec.path_hash) == Some(bytes),
        cached_guid_bytes(table_with(t, rec), rec.guid) == Some(bytes),
{
}

/// The first holding archive is the one `archive_holding` names.
proof fn lemma_first_holding_is(archs: Seq<ArchiveView>, h: u64)
    ensures
        forall|i: int| #[trigger] first_holding(archs, h, i) ==> archive_holding(archs, h) == Some(i),
{
    assert forall|i: int| #[trigger] first_holding(archs, h, i) implies archive_holding(archs, h) == Some(i) by {
        let c = choose|c: int| first_holding(archs, h, c);
        if c < i {
            assert(path_for_hash(archs[c].records, h) is None);
        } else if c > i {
            assert(path_for_hash(archs[i].records, h) is None);
        }
    }
}

proof fn lemma_first_with_guid_is(archs: Seq<ArchiveView>, g: u128)
    ensures
        forall|i: int| #[trigger] first_with_guid(archs, g, i) ==> archive_with_guid(archs, g) == Some(i),
{
    assert forall|i: int| #[trigger] first_with_guid(archs, g, i) implies archive_with_guid(archs, g) == Some(i) by {
        let c = choose|c: int| first_with_guid(archs, g, c);
        if c < i {
            assert(!has_guid(archs[c], g));
        } else if c > i {
            assert(!has_guid(archs[i], g));
        }
    }
}

proof fn lemma_first_guid_is(archs: Seq<ArchiveView>, h: u64)
    ensures
        forall|i: int| #[trigger] first_guid_for(archs, h, i) ==> first_guid_archive(archs, h) == Some(i),
{
    assert forall|i: int| #[trigger] first_guid_for(archs, h, i) implies first_guid_archive(archs, h) == Some(i) by {
        let c = choose|c: int| first_guid_for(archs, h, c);
        if c < i {
            assert(guid_for_hash(archs[c].records, h) is None);
        } else if c > i {
            assert(guid_for_hash(archs[i].records, h) is None);
        }
    }
}

/// If some archive up to `b` has a GUID for `h`, a first one does.
proof fn lemma_first_guid_exists(archs: Seq<ArchiveView>, h: u64, b: int)
    requires
        0 <= b < archs.len(),
        guid_for_hash(archs[b].records, h) is Some,
    ensures
        exists|c: int| c <= b && #[trigger] first_guid_for(archs, h, c),
    decreases b,
{
    if forall|j: int| 0 <= j < b ==> guid_for_hash(#[trigger] archs[j].records, h) is None {
        assert(first_guid_for(archs, h, b));
    } else {
        let j = choose|j: int| 0 <= j < b && guid_for_hash(#[trigger] archs[j].records, h) is Some;
        lemma_first_guid_exists(archs, h, j);
    }
}

} // verus!
