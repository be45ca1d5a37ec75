//! WMAP world maps: the file layout.
//!
//! A file is a 52-byte header (magic `WMAP`, major and minor version, flags,
//! entity count, component count, name-table offset and size, RNG seed), the
//! entity records, and the name table. Each entity record is its packed id,
//! the offset of its name in the name table, its component count and its
//! component records.

use vstd::prelude::*;
use vstd::utf8::encode_utf8;
use crate::wmap::{decode_component, decode_record, str_at, str_bytes, MapComponent, MapComponentView, WmapError};
use crate::wpak::{read_u32, read_u64, u32_at, u64_at, utf8_to_string};
use crate::wpak_build::{append_bytes, le32, le64, push_le32, push_le64};

verus! {

/// The current format version.
pub const WMAP_MAJOR: u16 = 1;

pub const WMAP_MINOR: u16 = 0;

/// Size of the header.
pub const WMAP_HEADER_SIZE: usize = 52;

pub open spec fn le16(x: u16) -> Seq<u8> {
    vstd::bytes::spec_u16_to_le_bytes(x)
}

pub open spec fn u16_at(b: Seq<u8>, off: int) -> u16 {
    vstd::bytes::spec_u16_from_le_bytes(b.subrange(off, off + 2))
}

/// The four magic bytes `WMAP`.
pub open spec fn wmap_magic() -> Seq<u8> {
    seq![0x57u8, 0x4Du8, 0x41u8, 0x50u8]
}

// --- What the writer is given ---------------------------------------------------------

/// A component record to write: type id, version, data.
pub type RawComponent = (u32, u32, Vec<u8>);

/// An entity to write: its packed id, its name (empty for none) and its
/// component records.
pub struct EntityRecord {
    pub id: u64,
    pub name: String,
    pub components: Vec<RawComponent>,
}

pub ghost struct EntityRecordView {
    pub id: u64,
    pub name: Seq<char>,
    pub components: Seq<(u32, u32, Seq<u8>)>,
}

impl View for EntityRecord {
    type V = EntityRecordView;

    open spec fn view(&self) -> EntityRecordView {
        EntityRecordView {
            id: self.id,
            name: self.name@,
            components: self.components@.map_values(|c: RawComponent| (c.0, c.1, c.2@)),
        }
    }
}

// --- The byte image ---------------------------------------------------------------------

/// One component record.
pub open spec fn component_bytes(c: (u32, u32, Seq<u8>)) -> Seq<u8> {
    le32(c.0) + le32(c.1) + le64(c.2.len() as u64) + c.2
}

/// The first `k` component records.
pub open spec fn components_bytes(cs: Seq<(u32, u32, Seq<u8>)>, k: int) -> Seq<u8>
    decreases k,
{
    if k <= 0 {
        Seq::empty()
    } else {
        components_bytes(cs, k - 1) + component_bytes(cs[k - 1])
    }
}

/// The name table of the first `k` entities.
pub open spec fn name_table(es: Seq<EntityRecordView>, k: int) -> Seq<u8>
    decreases k,
{
    if k <= 0 {
        Seq::empty()
    } else {
        name_table(es, k - 1) + str_bytes(es[k - 1].name)
    }
}

/// One entity record, with its name at `name_off`.
pub open spec fn entity_bytes(e: EntityRecordView, name_off: int) -> Seq<u8> {
    le64(e.id) + le64(name_off as u64) + le32(e.components.len() as u32) + components_bytes(
        e.components,
        e.components.len() as int,
    )
}

/// The first `k` entity records.
pub open spec fn entities_bytes(es: Seq<EntityRecordView>, k: int) -> Seq<u8>
    decreases k,
{
    if k <= 0 {
        Seq::empty()
    } else {
        entities_bytes(es, k - 1) + entity_bytes(es[k - 1], name_table(es, k - 1).len() as int)
    }
}

/// The component-count field: the per-entity counts summed modulo 2^64.
pub open spec fn component_total(es: Seq<EntityRecordView>, k: int) -> u64
    decreases k,
{
    if k <= 0 {
        0
    } else {
        vstd::wrapping::u64_specs::wrapping_add(
            component_total(es, k - 1),
            (es[k - 1].components.len() as u32) as u64,
        )
    }
}

/// The header of a file holding `es`.
pub open spec fn wmap_header(seed: u64, es: Seq<EntityRecordView>) -> Seq<u8> {
    let n = es.len() as int;
    wmap_magic() + le16(WMAP_MAJOR) + le16(WMAP_MINOR) + le32(0) + le64(n as u64) + le64(component_total(es, n)) + le64(
        vstd::wrapping::u64_specs::wrapping_add(
            WMAP_HEADER_SIZE as u64,
            entities_bytes(es, n).len() as u64,
        ),
    ) + le64(
        name_table(es, n).len() as u64,
    ) + le64(seed)
}

/// The bytes of a world-map file.
pub open spec fn wmap_image(seed: u64, es: Seq<EntityRecordView>) -> Seq<u8> {
    let n = es.len() as int;
    wmap_header(seed, es) + entities_bytes(es, n) + name_table(es, n)
}

/// Every name and component count fits its 32-bit field.
pub open spec fn records_fit(es: Seq<EntityRecordView>) -> bool {
    forall|i: int|
        0 <= i < es.len() ==> encode_utf8((#[trigger] es[i]).name).len() <= u32::MAX
            && es[i].components.len() <= u32::MAX
}

// --- The writer -------------------------------------------------------------------------

fn push_le16(out: &mut Vec<u8>, x: u16)
    ensures
        final(out)@ == old(out)@ + le16(x),
{
    let b = vstd::bytes::u16_to_le_bytes(x);
    append_bytes(out, b.as_slice());
}

fn push_str(out: &mut Vec<u8>, s: &str)
    ensures
        final(out)@ == old(out)@ + str_bytes(s@),
{
    let b = s.as_bytes();
    push_le32(out, b.len() as u32);
    append_bytes(out, b);
}

pub open spec fn record_views(es: Seq<EntityRecord>) -> Seq<EntityRecordView> {
    es.map_values(|e: EntityRecord| e@)
}

/// Write a world-map file: header, entity records, name table.
pub fn encode_wmap(seed: u64, es: &[EntityRecord]) -> (out: Vec<u8>)
    ensures
        out@ == wmap_image(seed, record_views(es@)),
{
    let ghost v = record_views(es@);
    let n = es.len();
    // Name table.
    let mut names: Vec<u8> = Vec::new();
    let mut name_offs: Vec<usize> = Vec::new();
    let mut k: usize = 0;
    while k < n
        invariant
            n == es@.len(),
            v == record_views(es@),
            k <= n,
            names@ == name_table(v, k as int),
            name_offs@.len() == k,
            forall|j: int| 0 <= j < k ==> #[trigger] name_offs@[j] == name_table(v, j).len(),
        decreases n - k,
    {
        name_offs.push(names.len());
        proof {
            assert(v[k as int] == es@[k as int]@);
        }
        push_str(&mut names, es[k].name.as_str());
        k = k + 1;
    }
    // Entity records.
    let mut ents: Vec<u8> = Vec::new();
    let mut total: u64 = 0;
    k = 0;
    while k < n
        invariant
            n == es@.len(),
            v == record_views(es@),
            k <= n,
            ents@ == entities_bytes(v, k as int),
            total == component_total(v, k as int),
            name_offs@.len() == n,
            forall|j: int| 0 <= j < n ==> #[trigger] name_offs@[j] == name_table(v, j).len(),
        decreases n - k,
    {
        let e = &es[k];
        proof {
            assert(v[k as int] == e@);
        }
        let ghost before = ents@;
        let m = e.components.len();
        push_le64(&mut ents, e.id);
        push_le64(&mut ents, name_offs[k] as u64);
        push_le32(&mut ents, m as u32);
        let ghost head = ents@;
        let mut i: usize = 0;
        while i < m
            invariant
                m == e.components@.len(),
                i <= m,
                v[k as int] == e@,
                ents@ == head + components_bytes(e@.components, i as int),
            decreases m - i,
        {
            let c = &e.components[i];
            proof {
                assert(e@.components[i as int] == (c.0, c.1, c.2@));
            }
            push_le32(&mut ents, c.0);
            push_le32(&mut ents, c.1);
            push_le64(&mut ents, c.2.len() as u64);
            append_bytes(&mut ents, c.2.as_slice());
            proof {
                assert(ents@ =~= head + components_bytes(e@.components, i + 1));
            }
            i = i + 1;
        }
        proof {
            assert(ents@ =~= entities_bytes(v, k + 1));
        }
        total = total.wrapping_add((m as u32) as u64);
        k = k + 1;
    }
    // Header.
    let mut out: Vec<u8> = Vec::new();
    out.push(0x57u8);
    out.push(0x4Du8);
    out.push(0x41u8);
    out.push(0x50u8);
    proof {
        assert(out@ =~= wmap_magic());
    }
    push_le16(&mut out, WMAP_MAJOR);
    push_le16(&mut out, WMAP_MINOR);
    push_le32(&mut out, 0);
    push_le64(&mut out, n as u64);
    push_le64(&mut out, total);
    push_le64(&mut out, (WMAP_HEADER_SIZE as u64).wrapping_add(ents.len() as u64));
    push_le64(&mut out, names.len() as u64);
    push_le64(&mut out, seed);
    proof {
        assert(out@ == wmap_header(seed, v));
    }
    append_bytes(&mut out, ents.as_slice());
    append_bytes(&mut out, names.as_slice());
    out
}

// --- The reader -------------------------------------------------------------------------

/// An entity read from a file.
pub struct MapEntity {
    pub id: u64,
    pub name: String,
    pub components: Vec<MapComponent>,
}

pub ghost struct MapEntityView {
    pub id: u64,
    pub name: Seq<char>,
    pub components: Seq<MapComponentView>,
}

impl View for MapEntity {
    type V = MapEntityView;

    open spec fn view(&self) -> MapEntityView {
        MapEntityView {
            id: self.id,
            name: self.name@,
            components: self.components@.map_values(|c: MapComponent| c@),
        }
    }
}

/// A file read back: its seed and its entities.
pub struct WmapFile {
    pub seed: u64,
    pub entities: Vec<MapEntity>,
}

pub open spec fn entity_views(es: Seq<MapEntity>) -> Seq<MapEntityView> {
    es.map_values(|e: MapEntity| e@)
}

/// The component record at `p`, and the position after it.
pub open spec fn component_at(b: Seq<u8>, p: int) -> Result<(MapComponentView, int), WmapError> {
    if p < 0 || p + 16 > b.len() {
        Err(WmapError::UnexpectedEnd)
    } else {
        let size = u64_at(b, p + 8) as int;
        if p + 16 + size > b.len() {
            Err(WmapError::UnexpectedEnd)
        } else {
            match decode_record(u32_at(b, p), u32_at(b, p + 4), b.subrange(p + 16, p + 16 + size)) {
                Err(e) => Err(e),
                Ok(c) => Ok((c, p + 16 + size)),
            }
        }
    }
}

/// `k` component records from `p`.
pub open spec fn components_at(b: Seq<u8>, p: int, k: nat) -> Result<
    (Seq<MapComponentView>, int),
    WmapError,
>
    decreases k,
{
    if k == 0 {
        Ok((Seq::empty(), p))
    } else {
        match components_at(b, p, (k - 1) as nat) {
            Err(e) => Err(e),
            Ok((cs, q)) => match component_at(b, q) {
                Err(e) => Err(e),
                Ok((c, r)) => Ok((cs.push(c), r)),
            },
        }
    }
}

/// The name at `off` of a name table; empty when none can be read there.
pub open spec fn name_in(names: Seq<u8>, off: u64) -> Seq<char> {
    match str_at(names, off as int) {
        Ok((s, _)) => s,
        Err(_) => Seq::empty(),
    }
}

/// The entity record at `p`, and the position after it.
pub open spec fn entity_at(b: Seq<u8>, p: int, names: Seq<u8>) -> Result<
    (MapEntityView, int),
    WmapError,
> {
    if p < 0 || p + 20 > b.len() {
        Err(WmapError::UnexpectedEnd)
    } else {
        match components_at(b, p + 20, u32_at(b, p + 16) as nat) {
            Err(e) => Err(e),
            Ok((cs, q)) => Ok(
                (
                    MapEntityView {
                        id: u64_at(b, p),
                        name: name_in(names, u64_at(b, p + 8)),
                        components: cs,
                    },
                    q,
                ),
            ),
        }
    }
}

/// `k` entity records from `p`.
pub open spec fn entities_at(b: Seq<u8>, p: int, names: Seq<u8>, k: nat) -> Result<
    (Seq<MapEntityView>, int),
    WmapError,
>
    decreases k,
{
    if k == 0 {
        Ok((Seq::empty(), p))
    } else {
        match entities_at(b, p, names, (k - 1) as nat) {
            Err(e) => Err(e),
            Ok((es, q)) => match entity_at(b, q, names) {
                Err(e) => Err(e),
                Ok((e, r)) => Ok((es.push(e), r)),
            },
        }
    }
}

/// What reading a world-map file gives: its seed and its entities.
pub open spec fn decode_wmap_spec(b: Seq<u8>) -> Result<(u64, Seq<MapEntityView>), WmapError> {
    if b.len() < 4 {
        Err(WmapError::UnexpectedEnd)
    } else if b.subrange(0, 4) != wmap_magic() {
        Err(WmapError::BadMagic)
    } else if b.len() < WMAP_HEADER_SIZE {
        Err(WmapError::UnexpectedEnd)
    } else if u16_at(b, 4) > WMAP_MAJOR {
        Err(WmapError::UnsupportedVersion(u16_at(b, 4), u16_at(b, 6)))
    } else {
        let off = u64_at(b, 28) as int;
        let size = u64_at(b, 36) as int;
        if off + size > b.len() {
            Err(WmapError::NameTableOutOfRange)
        } else {
            match entities_at(
                b,
                WMAP_HEADER_SIZE as int,
                b.subrange(off, off + size),
                u64_at(b, 12) as nat,
            ) {
                Err(e) => Err(e),
                Ok((es, _)) => Ok((u64_at(b, 44), es)),
            }
        }
    }
}

fn read_u16(b: &[u8], off: usize) -> (r: u16)
    requires
        off + 2 <= b@.len(),
    ensures
        r == u16_at(b@, off as int),
{
    let _len = b.len();
    vstd::bytes::u16_from_le_bytes(vstd::slice::slice_subrange(b, off, off + 2))
}

fn name_at(names: &[u8], off: u64) -> (r: String)
    ensures
        r@ == name_in(names@, off),
{
    let len = names.len();
    if off > len as u64 {
        return String::new();
    }
    let p = off as usize;
    if len - p < 4 {
        return String::new();
    }
    let n = read_u32(names, p) as usize;
    if len - p - 4 < n {
        return String::new();
    }
    match utf8_to_string(vstd::slice::slice_subrange(names, p + 4, p + 4 + n)) {
        Some(s) => {
            proof {
                vstd::utf8::encode_utf8_decode_utf8(s@);
            }
            s
        },
        None => String::new(),
    }
}

fn read_entity(b: &[u8], p: usize, names: &[u8]) -> (r: Result<(MapEntity, usize), WmapError>)
    requires
        p <= b@.len(),
    ensures
        match r {
            Ok((e, q)) => entity_at(b@, p as int, names@) == Ok::<(MapEntityView, int), WmapError>(
                (e@, q as int),
            ) && q <= b@.len(),
            Err(err) => entity_at(b@, p as int, names@) == Err::<(MapEntityView, int), WmapError>(
                err,
            ),
        },
{
    let len = b.len();
    if len - p < 20 {
        return Err(WmapError::UnexpectedEnd);
    }
    let id = read_u64(b, p);
    let name_off = read_u64(b, p + 8);
    let count = read_u32(b, p + 16);
    let name = name_at(names, name_off);
    let mut comps: Vec<MapComponent> = Vec::new();
    let mut q: usize = p + 20;
    let mut i: u32 = 0;
    proof {
        assert(comps@.map_values(|c: MapComponent| c@) =~= Seq::<MapComponentView>::empty());
    }
    while i < count
        invariant
            len == b@.len(),
            p + 20 <= q <= len,
            i <= count,
            count == u32_at(b@, p + 16),
            components_at(b@, p + 20, i as nat) == Ok::<(Seq<MapComponentView>, int), WmapError>(
                (comps@.map_values(|c: MapComponent| c@), q as int),
            ),
        decreases count - i,
    {
        proof {
            lemma_components_err_extends(b@, (p + 20) as int, i as nat, count as nat);
        }
        if len - q < 16 {
            proof {
                assert(components_at(b@, p + 20, (i + 1) as nat) == Err::<
                    (Seq<MapComponentView>, int),
                    WmapError,
                >(WmapError::UnexpectedEnd));
            }
            return Err(WmapError::UnexpectedEnd);
        }
        let t = read_u32(b, q);
        let v = read_u32(b, q + 4);
        let size = read_u64(b, q + 8);
        if ((len - q - 16) as u64) < size {
            proof {
                assert(components_at(b@, p + 20, (i + 1) as nat) == Err::<
                    (Seq<MapComponentView>, int),
                    WmapError,
                >(WmapError::UnexpectedEnd));
            }
            return Err(WmapError::UnexpectedEnd);
        }
        let s = size as usize;
        let data = vstd::slice::slice_subrange(b, q + 16, q + 16 + s);
        let c = match decode_component(t, v, data) {
            Ok(c) => c,
            Err(e) => {
                proof {
                    assert(components_at(b@, p + 20, (i + 1) as nat) == Err::<
                        (Seq<MapComponentView>, int),
                        WmapError,
                    >(e));
                }
                return Err(e);
            },
        };
        proof {
            assert(comps@.push(c).map_values(|c: MapComponent| c@) =~= comps@.map_values(
                |c: MapComponent| c@,
            ).push(c@));
        }
        comps.push(c);
        q = q + 16 + s;
        i = i + 1;
    }
    Ok((MapEntity { id, name, components: comps }, q))
}

proof fn lemma_components_err_extends(b: Seq<u8>, p: int, i: nat, n: nat)
    requires
        i < n,
        components_at(b, p, i) is Ok,
    ensures
        components_at(b, p, i + 1) is Err ==> components_at(b, p, n) == components_at(b, p, i + 1),
    decreases n,
{
    if n > i + 1 {
        lemma_components_err_extends(b, p, i, (n - 1) as nat);
    }
}

proof fn lemma_entities_err_extends(b: Seq<u8>, p: int, names: Seq<u8>, i: nat, n: nat)
    requires
        i < n,
        entities_at(b, p, names, i) is Ok,
    ensures
        entities_at(b, p, names, i + 1) is Err ==> entities_at(b, p, names, n) == entities_at(
            b,
            p,
            names,
            i + 1,
        ),
    decreases n,
{
    if n > i + 1 {
        lemma_entities_err_extends(b, p, names, i, (n - 1) as nat);
    }
}

/// Read a world-map file's bytes: check the header, then read every entity
/// record with its name and components.
pub fn decode_wmap(b: &[u8]) -> (r: Result<WmapFile, WmapError>)
    ensures
        match r {
            Ok(f) => decode_wmap_spec(b@) == Ok::<(u64, Seq<MapEntityView>), WmapError>(
                (f.seed, entity_views(f.entities@)),
            ),
            Err(e) => decode_wmap_spec(b@) == Err::<(u64, Seq<MapEntityView>), WmapError>(e),
        },
{
    let len = b.len();
    if len < 4 {
        return Err(WmapError::UnexpectedEnd);
    }
    if b[0] != 0x57u8 || b[1] != 0x4Du8 || b[2] != 0x41u8 || b[3] != 0x50u8 {
        proof {
            assert(b@.subrange(0, 4) != wmap_magic()) by {
                if b@.subrange(0, 4) == wmap_magic() {
                    assert(b@.subrange(0, 4)[0] == b@[0]);
                    assert(b@.subrange(0, 4)[1] == b@[1]);
                    assert(b@.subrange(0, 4)[2] == b@[2]);
                    assert(b@.subrange(0, 4)[3] == b@[3]);
                }
            }
        }
        return Err(WmapError::BadMagic);
    }
    proof {
        assert(b@.subrange(0, 4) =~= wmap_magic());
    }
    if len < WMAP_HEADER_SIZE {
        return Err(WmapError::UnexpectedEnd);
    }
    let major = read_u16(b, 4);
    let minor = read_u16(b, 6);
    let count = read_u64(b, 12);
    let off = read_u64(b, 28);
    let size = read_u64(b, 36);
    let seed = read_u64(b, 44);
    if major > WMAP_MAJOR {
        return Err(WmapError::UnsupportedVersion(major, minor));
    }
    if off > len as u64 || size > len as u64 - off {
        return Err(WmapError::NameTableOutOfRange);
    }
    let names = vstd::slice::slice_subrange(b, off as usize, (off + size) as usize);
    let mut ents: Vec<MapEntity> = Vec::new();
    let mut p: usize = WMAP_HEADER_SIZE;
    let mut i: u64 = 0;
    proof {
        assert(entity_views(ents@) =~= Seq::<MapEntityView>::empty());
    }
    while i < count
        invariant
            len == b@.len(),
            p <= len,
            i <= count,
            count == u64_at(b@, 12),
            len >= WMAP_HEADER_SIZE,
            b@.subrange(0, 4) == wmap_magic(),
            u16_at(b@, 4) <= WMAP_MAJOR,
            off == u64_at(b@, 28),
            size == u64_at(b@, 36),
            off + size <= len,
            names@ == b@.subrange(off as int, off + size),
            entities_at(b@, WMAP_HEADER_SIZE as int, names@, i as nat) == Ok::<
                (Seq<MapEntityView>, int),
                WmapError,
            >((entity_views(ents@), p as int)),
        decreases count - i,
    {
        proof {
            lemma_entities_err_extends(b@, WMAP_HEADER_SIZE as int, names@, i as nat, count as nat);
        }
        let (e, q) = match read_entity(b, p, names) {
            Ok(x) => x,
            Err(err) => {
                proof {
                    assert(entities_at(b@, WMAP_HEADER_SIZE as int, names@, (i + 1) as nat) == Err::<
                        (Seq<MapEntityView>, int),
                        WmapError,
                    >(err));
                }
                return Err(err);
            },
        };
        proof {
            assert(entity_views(ents@.push(e)) =~= entity_views(ents@).push(e@));
        }
        ents.push(e);
        p = q;
        i = i + 1;
    }
    Ok(WmapFile { seed, entities: ents })
}

// --- The file law ------------------------------------------------------------------------

/// `x` stands at position `p` of `b`.
pub open spec fn at(b: Seq<u8>, p: int, x: Seq<u8>) -> bool {
    0 <= p && p + x.len() <= b.len() && b.subrange(p, p + x.len()) == x
}

proof fn lemma_at_split(b: Seq<u8>, p: int, x: Seq<u8>, y: Seq<u8>)
    requires
        at(b, p, x + y),
    ensures
        at(b, p, x),
        at(b, p + x.len(), y),
{
    assert(b.subrange(p, p + x.len()) =~= (x + y).subrange(0, x.len() as int));
    assert((x + y).subrange(0, x.len() as int) =~= x);
    assert(b.subrange(p + x.len(), p + x.len() + y.len()) =~= (x + y).subrange(
        x.len() as int,
        (x.len() + y.len()) as int,
    ));
    assert((x + y).subrange(x.len() as int, (x.len() + y.len()) as int) =~= y);
}

proof fn lemma_at_fields(b: Seq<u8>, p: int)
    ensures
        forall|v: u16| at(b, p, #[trigger] le16(v)) ==> u16_at(b, p) == v,
        forall|v: u32| at(b, p, #[trigger] le32(v)) ==> u32_at(b, p) == v,
        forall|v: u64| at(b, p, #[trigger] le64(v)) ==> u64_at(b, p) == v,
{
    vstd::bytes::lemma_auto_spec_u16_to_from_le_bytes();
    vstd::bytes::lemma_auto_spec_u32_to_from_le_bytes();
    vstd::bytes::lemma_auto_spec_u64_to_from_le_bytes();
    crate::wmap::lemma_le32_reads();
}

proof fn lemma_field_lens()
    ensures
        forall|v: u16| #[trigger] le16(v).len() == 2,
        forall|v: u32| #[trigger] le32(v).len() == 4,
        forall|v: u64| #[trigger] le64(v).len() == 8,
{
    vstd::bytes::lemma_auto_spec_u16_to_from_le_bytes();
    vstd::bytes::lemma_auto_spec_u32_to_from_le_bytes();
    vstd::bytes::lemma_auto_spec_u64_to_from_le_bytes();
}

/// Every component record of every entity decodes.
pub open spec fn records_decode(es: Seq<EntityRecordView>) -> bool {
    forall|i: int, j: int|
        0 <= i < es.len() && 0 <= j < es[i].components.len() ==> decode_record(
            (#[trigger] es[i].components[j]).0,
            es[i].components[j].1,
            es[i].components[j].2,
        ) is Ok
}

/// What a component record decodes to.
pub open spec fn decoded_component(c: (u32, u32, Seq<u8>)) -> MapComponentView {
    decode_record(c.0, c.1, c.2)->Ok_0
}

/// What an entity record reads back as.
pub open spec fn decoded_entity(e: EntityRecordView) -> MapEntityView {
    MapEntityView {
        id: e.id,
        name: e.name,
        components: e.components.map_values(|c: (u32, u32, Seq<u8>)| decoded_component(c)),
    }
}

proof fn lemma_component_at(b: Seq<u8>, p: int, c: (u32, u32, Seq<u8>))
    requires
        at(b, p, component_bytes(c)),
        b.len() <= u64::MAX,
        decode_record(c.0, c.1, c.2) is Ok,
    ensures
        component_at(b, p) == Ok::<(MapComponentView, int), WmapError>(
            (decoded_component(c), p + component_bytes(c).len()),
        ),
{
    lemma_field_lens();
    let x = component_bytes(c);
    lemma_at_split(b, p, le32(c.0) + le32(c.1) + le64(c.2.len() as u64), c.2);
    lemma_at_split(b, p, le32(c.0) + le32(c.1), le64(c.2.len() as u64));
    lemma_at_split(b, p, le32(c.0), le32(c.1));
    lemma_at_fields(b, p);
    lemma_at_fields(b, p + 4);
    lemma_at_fields(b, p + 8);
}

proof fn lemma_components_at(b: Seq<u8>, p: int, cs: Seq<(u32, u32, Seq<u8>)>, k: int)
    requires
        0 <= k <= cs.len(),
        at(b, p, components_bytes(cs, k)),
        b.len() <= u64::MAX,
        forall|j: int| 0 <= j < cs.len() ==> decode_record((#[trigger] cs[j]).0, cs[j].1, cs[j].2) is Ok,
    ensures
        components_at(b, p, k as nat) == Ok::<(Seq<MapComponentView>, int), WmapError>(
            (
                cs.take(k).map_values(|c: (u32, u32, Seq<u8>)| decoded_component(c)),
                p + components_bytes(cs, k).len(),
            ),
        ),
    decreases k,
{
    if k == 0 {
        assert(cs.take(0).map_values(|c: (u32, u32, Seq<u8>)| decoded_component(c)) =~= Seq::<
            MapComponentView,
        >::empty());
    } else {
        let prev = components_bytes(cs, k - 1);
        lemma_at_split(b, p, prev, component_bytes(cs[k - 1]));
        lemma_components_at(b, p, cs, k - 1);
        lemma_component_at(b, p + prev.len(), cs[k - 1]);
        assert(cs.take(k - 1).map_values(|c: (u32, u32, Seq<u8>)| decoded_component(c)).push(
            decoded_component(cs[k - 1]),
        ) =~= cs.take(k).map_values(|c: (u32, u32, Seq<u8>)| decoded_component(c)));
    }
}

/// Entity `j`'s name stands at its offset in the name table.
proof fn lemma_name_table_entry(es: Seq<EntityRecordView>, j: int, m: int)
    requires
        0 <= j < m <= es.len(),
    ensures
        at(name_table(es, m), name_table(es, j).len() as int, str_bytes(es[j].name)),
    decreases m,
{
    let prev = name_table(es, m - 1);
    let x = str_bytes(es[m - 1].name);
    if j == m - 1 {
        assert((prev + x).subrange(prev.len() as int, (prev.len() + x.len()) as int) =~= x);
    } else {
        lemma_name_table_entry(es, j, m - 1);
        let off = name_table(es, j).len() as int;
        let y = str_bytes(es[j].name);
        assert((prev + x).subrange(off, off + y.len()) =~= prev.subrange(off, off + y.len()));
    }
}

/// A string stands at `p`: it reads back.
proof fn lemma_str_at(b: Seq<u8>, p: int, s: Seq<char>)
    requires
        at(b, p, str_bytes(s)),
        encode_utf8(s).len() <= u32::MAX,
    ensures
        str_at(b, p) == Ok::<(Seq<char>, int), WmapError>((s, p + str_bytes(s).len())),
{
    let enc = encode_utf8(s);
    lemma_field_lens();
    lemma_at_split(b, p, le32(enc.len() as u32), enc);
    lemma_at_fields(b, p);
    vstd::utf8::encode_utf8_valid_utf8(s);
    vstd::utf8::encode_utf8_decode_utf8(s);
}

proof fn lemma_entity_at(b: Seq<u8>, p: int, names: Seq<u8>, e: EntityRecordView, no: int)
    requires
        at(b, p, entity_bytes(e, no)),
        b.len() <= u64::MAX,
        0 <= no <= u64::MAX,
        encode_utf8(e.name).len() <= u32::MAX,
        e.components.len() <= u32::MAX,
        at(names, no, str_bytes(e.name)),
        forall|j: int|
            0 <= j < e.components.len() ==> decode_record(
                (#[trigger] e.components[j]).0,
                e.components[j].1,
                e.components[j].2,
            ) is Ok,
    ensures
        entity_at(b, p, names) == Ok::<(MapEntityView, int), WmapError>(
            (decoded_entity(e), p + entity_bytes(e, no).len()),
        ),
{
    lemma_field_lens();
    let k = e.components.len() as int;
    let cb = components_bytes(e.components, k);
    lemma_at_split(b, p, le64(e.id) + le64(no as u64) + le32(k as u32), cb);
    lemma_at_split(b, p, le64(e.id) + le64(no as u64), le32(k as u32));
    lemma_at_split(b, p, le64(e.id), le64(no as u64));
    lemma_at_fields(b, p);
    lemma_at_fields(b, p + 8);
    lemma_at_fields(b, p + 16);
    lemma_components_at(b, p + 20, e.components, k);
    assert(e.components.take(k) =~= e.components);
    lemma_str_at(names, no, e.name);
}

proof fn lemma_entities_at(b: Seq<u8>, p: int, es: Seq<EntityRecordView>, k: int)
    requires
        0 <= k <= es.len(),
        at(b, p, entities_bytes(es, k)),
        b.len() <= u64::MAX,
        name_table(es, es.len() as int).len() <= u64::MAX,
        records_fit(es),
        records_decode(es),
    ensures
        entities_at(b, p, name_table(es, es.len() as int), k as nat) == Ok::<
            (Seq<MapEntityView>, int),
            WmapError,
        >(
            (
                es.take(k).map_values(|e: EntityRecordView| decoded_entity(e)),
                p + entities_bytes(es, k).len(),
            ),
        ),
    decreases k,
{
    let names = name_table(es, es.len() as int);
    if k == 0 {
        assert(es.take(0).map_values(|e: EntityRecordView| decoded_entity(e)) =~= Seq::<
            MapEntityView,
        >::empty());
    } else {
        let prev = entities_bytes(es, k - 1);
        let no = name_table(es, k - 1).len() as int;
        lemma_at_split(b, p, prev, entity_bytes(es[k - 1], no));
        lemma_entities_at(b, p, es, k - 1);
        lemma_name_table_entry(es, k - 1, es.len() as int);
        lemma_name_table_prefix(es, k - 1, es.len() as int);
        let e = es[k - 1];
        assert forall|j: int| 0 <= j < e.components.len() implies decode_record(
            (#[trigger] e.components[j]).0,
            e.components[j].1,
            e.components[j].2,
        ) is Ok by {
            assert(es[k - 1].components[j] == e.components[j]);
        }
        lemma_entity_at(b, p + prev.len(), names, e, no);
        assert(es.take(k - 1).map_values(|e: EntityRecordView| decoded_entity(e)).push(
            decoded_entity(es[k - 1]),
        ) =~= es.take(k).map_values(|e: EntityRecordView| decoded_entity(e)));
    }
}

proof fn lemma_entities_len(es: Seq<EntityRecordView>, k: int)
    requires
        0 <= k,
    ensures
        entities_bytes(es, k).len() >= k,
    decreases k,
{
    lemma_field_lens();
    if k > 0 {
        lemma_entities_len(es, k - 1);
    }
}

proof fn lemma_name_table_prefix(es: Seq<EntityRecordView>, j: int, m: int)
    requires
        0 <= j <= m,
    ensures
        name_table(es, j).len() <= name_table(es, m).len(),
    decreases m,
{
    if j < m {
        lemma_name_table_prefix(es, j, m - 1);
    }
}

/// Reading back a written world-map file gives its seed and its entities:
/// each entity's id, name and decoded component records, in order. This
/// holds when names and component counts fit their 32-bit fields, every
/// component record decodes, and the file is small enough for its 64-bit
/// offsets.
pub proof fn lemma_wmap_round_trip(seed: u64, es: Seq<EntityRecordView>)
    requires
        records_fit(es),
        records_decode(es),
        wmap_image(seed, es).len() <= u64::MAX,
    ensures
        decode_wmap_spec(wmap_image(seed, es)) == Ok::<(u64, Seq<MapEntityView>), WmapError>(
            (seed, es.map_values(|e: EntityRecordView| decoded_entity(e))),
        ),
{
    let n = es.len() as int;
    let h = wmap_header(seed, es);
    let ents = entities_bytes(es, n);
    let names = name_table(es, n);
    let img = wmap_image(seed, es);
    lemma_field_lens();
    assert(h.len() == WMAP_HEADER_SIZE);
    assert(at(img, 0, h + ents + names)) by {
        assert(img.subrange(0, img.len() as int) =~= img);
    }
    lemma_at_split(img, 0, h + ents, names);
    lemma_at_split(img, 0, h, ents);
    let magic = wmap_magic();
    let h1 = magic + le16(WMAP_MAJOR);
    let h2 = h1 + le16(WMAP_MINOR);
    let h3 = h2 + le32(0);
    let h4 = h3 + le64(n as u64);
    let h5 = h4 + le64(component_total(es, n));
    let h6 = h5 + le64(
        vstd::wrapping::u64_specs::wrapping_add(WMAP_HEADER_SIZE as u64, ents.len() as u64),
    );
    let h7 = h6 + le64(names.len() as u64);
    lemma_at_split(img, 0, h7, le64(seed));
    lemma_at_split(img, 0, h6, le64(names.len() as u64));
    lemma_at_split(
        img,
        0,
        h5,
        le64(vstd::wrapping::u64_specs::wrapping_add(WMAP_HEADER_SIZE as u64, ents.len() as u64)),
    );
    lemma_at_split(img, 0, h4, le64(component_total(es, n)));
    lemma_at_split(img, 0, h3, le64(n as u64));
    lemma_at_split(img, 0, h2, le32(0));
    lemma_at_split(img, 0, h1, le16(WMAP_MINOR));
    lemma_at_split(img, 0, magic, le16(WMAP_MAJOR));
    lemma_at_fields(img, 4);
    lemma_at_fields(img, 12);
    lemma_at_fields(img, 28);
    lemma_at_fields(img, 36);
    lemma_at_fields(img, 44);
    assert(img.subrange(0, 4) == magic);
    assert(u64_at(img, 28) == WMAP_HEADER_SIZE + ents.len());
    assert(u64_at(img, 36) == names.len());
    assert(img.subrange(WMAP_HEADER_SIZE + ents.len(), WMAP_HEADER_SIZE + ents.len() + names.len()) == names);
    lemma_entities_at(img, WMAP_HEADER_SIZE as int, es, n);
    assert(es.take(n) =~= es);
    lemma_entities_len(es, n);
    assert(u16_at(img, 4) == WMAP_MAJOR);
    assert(u64_at(img, 12) == n);
    assert(u64_at(img, 44) == seed);
    assert(img.len() >= WMAP_HEADER_SIZE);
    let off = u64_at(img, 28) as int;
    let size = u64_at(img, 36) as int;
    assert(off + size <= img.len());
    assert(img.subrange(off, off + size) == names);
    assert(entities_at(img, WMAP_HEADER_SIZE as int, names, n as nat) is Ok);
}

} // verus!
