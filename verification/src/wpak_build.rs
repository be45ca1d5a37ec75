//! Building WPAK archives: the byte image of an archive as a function of its
//! entries, and the builder that produces it.

use vstd::prelude::*;
use vstd::utf8::encode_utf8;
use crate::wpak::{
    compress, compressed, compression_code, decompressed, guid_value, swap_guid_fields,
    wpak_magic, Compression, WpakError, CURRENT_VERSION, FILE_ENTRY_SIZE, FLAG_HAS_GUID_TABLE, HEADER_SIZE,
};

verus! {

/// One asset to pack. `guid` is the asset's UUID as a number, if it has one.
pub struct FileEntry {
    pub path: String,
    pub path_hash: u64,
    pub data: Vec<u8>,
    pub compression: Compression,
    pub guid: Option<u128>,
}

/// What the builder reads of an entry.
pub ghost struct EntryView {
    pub path: Seq<char>,
    pub path_hash: u64,
    pub data: Seq<u8>,
    pub compression: Compression,
    pub guid: Option<u128>,
}

impl View for FileEntry {
    type V = EntryView;

    open spec fn view(&self) -> EntryView {
        EntryView {
            path: self.path@,
            path_hash: self.path_hash,
            data: self.data@,
            compression: self.compression,
            guid: self.guid,
        }
    }
}

// --- The order of the index ----------------------------------------------------

/// Entry `i` comes before entry `j` in the index: smaller hash, or equal hash
/// and given earlier.
pub open spec fn index_before(es: Seq<EntryView>, i: int, j: int) -> bool {
    es[i].path_hash < es[j].path_hash || (es[i].path_hash == es[j].path_hash && i < j)
}

/// Index `i` occurs in `order`.
pub open spec fn lists_index(order: Seq<int>, i: int) -> bool {
    exists|k: int| 0 <= k < order.len() && order[k] == i
}

/// `order` lists every entry once, sorted stably by path hash.
pub open spec fn is_index_order(es: Seq<EntryView>, order: Seq<int>) -> bool {
    &&& order.len() == es.len()
    &&& forall|k: int| 0 <= k < order.len() ==> 0 <= #[trigger] order[k] < es.len()
    &&& forall|i: int| 0 <= i < es.len() ==> #[trigger] lists_index(order, i)
    &&& forall|a: int, b: int|
        0 <= a < b < order.len() ==> index_before(es, #[trigger] order[a], #[trigger] order[b])
}

/// The entries in index order.
pub open spec fn in_order(es: Seq<EntryView>, order: Seq<int>) -> Seq<EntryView> {
    order.map_values(|i: int| es[i])
}

/// There is one index order of given entries.
pub proof fn lemma_index_order_unique(es: Seq<EntryView>, o1: Seq<int>, o2: Seq<int>)
    requires
        is_index_order(es, o1),
        is_index_order(es, o2),
    ensures
        o1 == o2,
{
    if o1.len() > 0 {
        lemma_orders_agree_upto(es, o1, o2, o1.len() - 1);
    }
    assert(o1 =~= o2);
}

proof fn lemma_orders_agree_upto(es: Seq<EntryView>, o1: Seq<int>, o2: Seq<int>, p: int)
    requires
        is_index_order(es, o1),
        is_index_order(es, o2),
        0 <= p < o1.len(),
    ensures
        forall|q: int| 0 <= q <= p ==> o1[q] == o2[q],
    decreases p,
{
    if p > 0 {
        lemma_orders_agree_upto(es, o1, o2, p - 1);
    }
    if o1[p] != o2[p] {
        let a = o1[p];
        let b = o2[p];
        assert(0 <= a < es.len());
        assert(0 <= b < es.len());
        assert(lists_index(o2, a));
        assert(lists_index(o1, b));
        let r = choose|k: int| 0 <= k < o2.len() && o2[k] == a;
        let s = choose|k: int| 0 <= k < o1.len() && o1[k] == b;
        if r < p {
            assert(o1[r] == o2[r]);
            assert(index_before(es, o1[r], o1[p]));
        } else {
            assert(index_before(es, o2[p], o2[r]));
            if s < p {
                assert(o1[s] == o2[s]);
                assert(index_before(es, o2[s], o2[p]));
            } else {
                assert(index_before(es, o1[p], o1[s]));
            }
        }
    }
}

// --- The byte image ----------------------------------------------------------------

/// `n` zero bytes.
pub open spec fn zeros(n: int) -> Seq<u8> {
    Seq::new(n as nat, |i: int| 0u8)
}

/// Zero bytes that bring position `pos` to a multiple of 16.
pub open spec fn pad16(pos: int) -> int {
    (16 - pos % 16) % 16
}

pub open spec fn le32(x: u32) -> Seq<u8> {
    vstd::bytes::spec_u32_to_le_bytes(x)
}

pub open spec fn le64(x: u64) -> Seq<u8> {
    vstd::bytes::spec_u64_to_le_bytes(x)
}

/// The stored payload of an entry.
pub open spec fn payload(e: EntryView) -> Seq<u8> {
    compressed(e.data, e.compression)
}

/// The name block of the first `k` entries: each UTF-8 path and a zero byte.
pub open spec fn names_blob(es: Seq<EntryView>, k: int) -> Seq<u8>
    decreases k,
{
    if k <= 0 {
        Seq::empty()
    } else {
        names_blob(es, k - 1) + encode_utf8(es[k - 1].path) + seq![0u8]
    }
}

/// Where the index ends and the names begin.
pub open spec fn names_start(n: int) -> int {
    HEADER_SIZE + FILE_ENTRY_SIZE * n
}

/// Where the data section begins.
pub open spec fn data_start(es: Seq<EntryView>) -> int {
    names_start(es.len() as int) + names_blob(es, es.len() as int).len()
}

/// The data section of the first `k` entries: each payload, then zero bytes
/// up to the next multiple of 16 counted from the start of the archive.
pub open spec fn data_blob(es: Seq<EntryView>, k: int) -> Seq<u8>
    decreases k,
{
    if k <= 0 {
        Seq::empty()
    } else {
        let d = data_blob(es, k - 1) + payload(es[k - 1]);
        d + zeros(pad16(data_start(es) + d.len()))
    }
}

/// The compressed-size field: zero for uncompressed entries.
pub open spec fn compressed_size(e: EntryView) -> u64 {
    if e.compression == Compression::Raw {
        0
    } else {
        payload(e).len() as u64
    }
}

/// One 48-byte index record.
pub open spec fn record_bytes(
    hash: u64,
    name_off: u64,
    data_off: u64,
    size: u64,
    csize: u64,
    id: u8,
) -> Seq<u8> {
    le64(hash) + le64(name_off) + le64(data_off) + le64(size) + le64(csize) + seq![id] + zeros(7)
}

/// The index record of entry `k`.
pub open spec fn entry_record(es: Seq<EntryView>, k: int) -> Seq<u8> {
    record_bytes(
        es[k].path_hash,
        (names_start(es.len() as int) + names_blob(es, k).len()) as u64,
        data_blob(es, k).len() as u64,
        es[k].data.len() as u64,
        compressed_size(es[k]),
        compression_code(es[k].compression),
    )
}

/// The index records of the first `k` entries.
pub open spec fn index_blob(es: Seq<EntryView>, k: int) -> Seq<u8>
    decreases k,
{
    if k <= 0 {
        Seq::empty()
    } else {
        index_blob(es, k - 1) + entry_record(es, k - 1)
    }
}

/// Some entry carries a GUID.
pub open spec fn has_any_guid(es: Seq<EntryView>) -> bool {
    exists|k: int| 0 <= k < es.len() && (#[trigger] es[k]).guid is Some
}

/// The 16 bytes of a GUID in big-endian order (`Uuid::as_bytes`).
pub open spec fn guid_bytes(g: u128) -> Seq<u8> {
    vstd::bytes::spec_u128_to_le_bytes(g).reverse()
}

/// `Uuid::to_bytes_le`: the first three fields byte-swapped.
pub open spec fn guid_le_bytes(g: u128) -> Seq<u8> {
    swap_guid_fields(guid_bytes(g))
}

/// A GUID written with `Uuid::to_bytes_le` reads back unchanged.
pub proof fn lemma_guid_bytes_round_trip(g: u128)
    ensures
        guid_le_bytes(g).len() == 16,
        guid_value(guid_le_bytes(g)) == g,
{
    vstd::bytes::lemma_auto_spec_u128_to_from_le_bytes();
    let le = vstd::bytes::spec_u128_to_le_bytes(g);
    let b = guid_bytes(g);
    assert(b.len() == 16);
    assert(swap_guid_fields(swap_guid_fields(b)) =~= b);
    assert(b.reverse() =~= le);
}

/// The GUID an entry contributes to the table; zero (nil) when it has none.
pub open spec fn guid_or_nil(g: Option<u128>) -> u128 {
    match g {
        Some(v) => v,
        None => 0,
    }
}

/// The GUID table rows of the first `k` entries.
pub open spec fn guid_blob(es: Seq<EntryView>, k: int) -> Seq<u8>
    decreases k,
{
    if k <= 0 {
        Seq::empty()
    } else {
        guid_blob(es, k - 1) + guid_le_bytes(guid_or_nil(es[k - 1].guid))
    }
}

/// Where the data section ends.
pub open spec fn data_end(es: Seq<EntryView>) -> int {
    data_start(es) + data_blob(es, es.len() as int).len()
}

/// Where the GUID table begins; zero when there is none.
pub open spec fn guid_table_start(es: Seq<EntryView>) -> int {
    if has_any_guid(es) {
        data_end(es) + pad16(data_end(es))
    } else {
        0
    }
}

/// The 52-byte header.
pub open spec fn header_bytes(es: Seq<EntryView>) -> Seq<u8> {
    wpak_magic() + le32(CURRENT_VERSION) + le32(
        if has_any_guid(es) {
            FLAG_HAS_GUID_TABLE
        } else {
            0
        },
    ) + le64(es.len() as u64) + le64(HEADER_SIZE as u64) + le64(
        (FILE_ENTRY_SIZE * es.len()) as u64,
    ) + le64(data_start(es) as u64) + le64(guid_table_start(es) as u64)
}

/// The archive image of entries given in index order: header, index, names,
/// data section and, when some entry has a GUID, the GUID table.
pub open spec fn archive_image(es: Seq<EntryView>) -> Seq<u8> {
    let n = es.len() as int;
    let body = header_bytes(es) + index_blob(es, n) + names_blob(es, n) + data_blob(es, n);
    if has_any_guid(es) {
        body + zeros(pad16(body.len() as int)) + guid_blob(es, n)
    } else {
        body
    }
}

/// The index order of the entries (there is exactly one).
pub open spec fn index_order_of(es: Seq<EntryView>) -> Seq<int> {
    choose|o: Seq<int>| is_index_order(es, o)
}

/// The bytes of the archive that packs `es`.
pub open spec fn wpak_image(es: Seq<EntryView>) -> Seq<u8> {
    archive_image(in_order(es, index_order_of(es)))
}

/// What the builder reads of a list of entries.
pub open spec fn entry_views(entries: Seq<FileEntry>) -> Seq<EntryView> {
    entries.map_values(|e: FileEntry| e@)
}

pub open spec fn usize_as_ints(v: Seq<usize>) -> Seq<int> {
    v.map_values(|x: usize| x as int)
}

// --- The builder -------------------------------------------------------------------

pub(crate) fn append_bytes(out: &mut Vec<u8>, src: &[u8])
    ensures
        final(out)@ == old(out)@ + src@,
{
    let n = src.len();
    let mut i: usize = 0;
    while i < n
        invariant
            n == src@.len(),
            i <= n,
            out@ == old(out)@ + src@.take(i as int),
        decreases n - i,
    {
        proof {
            assert(src@.take(i + 1) == src@.take(i as int).push(src@[i as int]));
        }
        out.push(src[i]);
        i = i + 1;
    }
    proof {
        assert(src@.take(n as int) == src@);
    }
}

pub(crate) fn push_zeros(out: &mut Vec<u8>, n: usize)
    ensures
        final(out)@ == old(out)@ + zeros(n as int),
{
    let mut i: usize = 0;
    while i < n
        invariant
            i <= n,
            out@ == old(out)@ + zeros(i as int),
        decreases n - i,
    {
        proof {
            assert(zeros(i + 1) =~= zeros(i as int).push(0u8));
        }
        out.push(0u8);
        i = i + 1;
    }
}

pub(crate) fn push_le32(out: &mut Vec<u8>, x: u32)
    ensures
        final(out)@ == old(out)@ + le32(x),
{
    let b = vstd::bytes::u32_to_le_bytes(x);
    append_bytes(out, b.as_slice());
}

pub(crate) fn push_le64(out: &mut Vec<u8>, x: u64)
    ensures
        final(out)@ == old(out)@ + le64(x),
{
    let b = vstd::bytes::u64_to_le_bytes(x);
    append_bytes(out, b.as_slice());
}

/// `Uuid::from_u128` written out with `Uuid::to_bytes_le`.
#[verifier::external_body]
fn guid_to_bytes_le(g: u128) -> (r: Vec<u8>)
    ensures
        r@ == guid_le_bytes(g),
{
    uuid::Uuid::from_u128(g).to_bytes_le().to_vec()
}

/// The stable order of the entries by path hash.
fn index_order(entries: &[FileEntry]) -> (order: Vec<usize>)
    ensures
        is_index_order(entry_views(entries@), usize_as_ints(order@)),
{
    let ghost es = entry_views(entries@);
    let n = entries.len();
    let mut order: Vec<usize> = Vec::new();
    let mut i: usize = 0;
    while i < n
        invariant
            n == entries@.len(),
            es == entry_views(entries@),
            i <= n,
            order@.len() == i,
            forall|k: int| 0 <= k < order@.len() ==> #[trigger] order@[k] < i,
            forall|j: int| 0 <= j < i ==> #[trigger] lists_index(usize_as_ints(order@), j),
            forall|a: int, b: int|
                0 <= a < b < order@.len() ==> index_before(
                    es,
                    #[trigger] order@[a] as int,
                    #[trigger] order@[b] as int,
                ),
        decreases n - i,
    {
        let h = entries[i].path_hash;
        let mut p: usize = 0;
        while p < order.len() && entries[order[p]].path_hash <= h
            invariant
                n == entries@.len(),
                es == entry_views(entries@),
                i < n,
                h == es[i as int].path_hash,
                p <= order@.len(),
                forall|k: int| 0 <= k < order@.len() ==> #[trigger] order@[k] < i,
                forall|q: int| 0 <= q < p ==> es[#[trigger] order@[q] as int].path_hash <= h,
            decreases order@.len() - p,
        {
            p = p + 1;
        }
        let ghost old_order = order@;
        proof {
            // Everything from p on has a larger hash than entry i.
            assert forall|q: int| p <= q < old_order.len() implies h < es[#[trigger] old_order[q] as int].path_hash by {
                if p < old_order.len() {
                    if q > p {
                        assert(index_before(es, old_order[p as int] as int, old_order[q] as int));
                    }
                }
            }
        }
        order.insert(p, i);
        proof {
            let ints = usize_as_ints(order@);
            let old_ints = usize_as_ints(old_order);
            assert forall|j: int| 0 <= j <= i implies #[trigger] lists_index(ints, j) by {
                if j == i {
                    assert(ints[p as int] == i);
                } else {
                    assert(lists_index(old_ints, j));
                    let k = choose|k: int| 0 <= k < old_ints.len() && old_ints[k] == j;
                    if k < p {
                        assert(ints[k] == j);
                    } else {
                        assert(ints[k + 1] == j);
                    }
                }
            }
            assert forall|a: int, b: int|
                0 <= a < b < order@.len() implies index_before(
                    es,
                    #[trigger] order@[a] as int,
                    #[trigger] order@[b] as int,
                ) by {
                if b < p {
                    assert(order@[a] == old_order[a] && order@[b] == old_order[b]);
                } else if b == p {
                    assert(order@[a] == old_order[a]);
                } else if a < p {
                    assert(order@[a] == old_order[a] && order@[b] == old_order[b - 1]);
                } else if a == p {
                    assert(order@[b] == old_order[b - 1]);
                } else {
                    assert(order@[a] == old_order[a - 1] && order@[b] == old_order[b - 1]);
                }
            }
        }
        i = i + 1;
    }
    order
}

/// Pack entries into the bytes of an archive: index sorted stably by path
/// hash, names, 16-byte-aligned payloads and, when some entry has a GUID, the
/// GUID table. Each stored payload decompresses back to its entry's data.
pub fn build_archive_bytes(entries: &[FileEntry]) -> (r: Result<Vec<u8>, WpakError>)
    ensures
        match r {
            Ok(out) => out@ == wpak_image(entry_views(entries@)) && is_index_order(
                entry_views(entries@),
                index_order_of(entry_views(entries@)),
            ) && forall|i: int|
                0 <= i < entries@.len() ==> decompressed(
                    payload(#[trigger] entry_views(entries@)[i]),
                    entries@[i].compression,
                ) == Ok::<Seq<u8>, WpakError>(entries@[i].data@),
            Err(e) => e == WpakError::TooLarge && wpak_image(entry_views(entries@)).len()
                > usize::MAX,
        },
{
    let ghost es = entry_views(entries@);
    let n = entries.len();
    let order = index_order(entries);
    let ghost ord = usize_as_ints(order@);
    let ghost sorted = in_order(es, ord);
    proof {
        lemma_index_order_unique(es, ord, index_order_of(es));
        assert(wpak_image(es) == archive_image(sorted));
        lemma_image_covers(sorted);
    }
    let ghost img_len = archive_image(sorted).len();
    // Payloads, in index order.
    let mut payloads: Vec<Vec<u8>> = Vec::new();
    let mut k: usize = 0;
    while k < n
        invariant
            n == entries@.len(),
            es == entry_views(entries@),
            is_index_order(es, ord),
            ord == usize_as_ints(order@),
            order@.len() == n,
            sorted == in_order(es, ord),
            k <= n,
            payloads@.len() == k,
            forall|j: int| 0 <= j < k ==> (#[trigger] payloads@[j])@ == payload(sorted[j]),
            forall|j: int|
                0 <= j < k ==> decompressed(payload(#[trigger] sorted[j]), sorted[j].compression)
                    == Ok::<Seq<u8>, WpakError>(sorted[j].data),
        decreases n - k,
    {
        proof {
            assert(ord[k as int] == order@[k as int] as int);
        }
        let e = &entries[order[k]];
        proof {
            assert(sorted[k as int] == es[ord[k as int]]);
            assert(es[ord[k as int]] == entries@[ord[k as int]]@);
        }
        let p = match compress(e.data.as_slice(), e.compression) {
            Ok(p) => p,
            Err(err) => {
                return Err(err);
            },
        };
        payloads.push(p);
        k = k + 1;
    }
    // Names.
    let mut names: Vec<u8> = Vec::new();
    let mut name_lens: Vec<usize> = Vec::new();
    k = 0;
    while k < n
        invariant
            n == entries@.len(),
            es == entry_views(entries@),
            ord == usize_as_ints(order@),
            order@.len() == n,
            forall|j: int| 0 <= j < n ==> 0 <= #[trigger] ord[j] < n,
            sorted == in_order(es, ord),
            k <= n,
            names@ == names_blob(sorted, k as int),
            name_lens@.len() == k,
            forall|j: int| 0 <= j < k ==> #[trigger] name_lens@[j] == names_blob(sorted, j).len(),
        decreases n - k,
    {
        name_lens.push(names.len());
        proof {
            assert(ord[k as int] == order@[k as int] as int);
        }
        let e = &entries[order[k]];
        proof {
            assert(sorted[k as int] == es[ord[k as int]]);
            assert(es[ord[k as int]] == entries@[ord[k as int]]@);
        }
        append_bytes(&mut names, e.path.as_str().as_bytes());
        names.push(0u8);
        k = k + 1;
    }
    let ds: usize = match (n.checked_mul(FILE_ENTRY_SIZE)) {
        Some(x) => match x.checked_add(HEADER_SIZE) {
            Some(y) => match y.checked_add(names.len()) {
                Some(z) => z,
                None => {
                    return Err(WpakError::TooLarge);
                },
            },
            None => {
                return Err(WpakError::TooLarge);
            },
        },
        None => {
            return Err(WpakError::TooLarge);
        },
    };
    proof {
        assert(ds == data_start(sorted));
    }
    // Data section.
    let mut dsec: Vec<u8> = Vec::new();
    let mut data_offs: Vec<usize> = Vec::new();
    k = 0;
    while k < n
        invariant
            n == entries@.len(),
            sorted.len() == n,
            ds == data_start(sorted),
            payloads@.len() == n,
            forall|j: int| 0 <= j < n ==> (#[trigger] payloads@[j])@ == payload(sorted[j]),
            k <= n,
            img_len >= data_end(sorted),
            wpak_image(entry_views(entries@)).len() == img_len,
            dsec@ == data_blob(sorted, k as int),
            data_offs@.len() == k,
            forall|j: int| 0 <= j < k ==> #[trigger] data_offs@[j] == data_blob(sorted, j).len(),
        decreases n - k,
    {
        data_offs.push(dsec.len());
        append_bytes(&mut dsec, payloads[k].as_slice());
        proof {
            lemma_data_blob_grows(sorted, k + 1, n as int);
            assert(data_blob(sorted, k + 1).len() >= dsec@.len());
        }
        let pos = match ds.checked_add(dsec.len()) {
            Some(x) => x,
            None => {
                return Err(WpakError::TooLarge);
            },
        };
        let pad = (16 - pos % 16) % 16;
        push_zeros(&mut dsec, pad);
        k = k + 1;
    }
    // GUID table placement.
    let mut has_guid = false;
    k = 0;
    while k < n
        invariant
            n == entries@.len(),
            es == entry_views(entries@),
            ord == usize_as_ints(order@),
            order@.len() == n,
            forall|j: int| 0 <= j < n ==> 0 <= #[trigger] ord[j] < n,
            sorted == in_order(es, ord),
            k <= n,
            has_guid <==> exists|j: int| 0 <= j < k && (#[trigger] sorted[j]).guid is Some,
        decreases n - k,
    {
        proof {
            assert(sorted[k as int] == es[ord[k as int]]);
            assert(es[ord[k as int]] == entries@[ord[k as int]]@);
        }
        if entries[order[k]].guid.is_some() {
            has_guid = true;
        }
        k = k + 1;
    }
    let data_end = match ds.checked_add(dsec.len()) {
        Some(x) => x,
        None => {
            return Err(WpakError::TooLarge);
        },
    };
    proof {
        assert(has_guid == has_any_guid(sorted));
    }
    let gstart: usize = if has_guid {
        match data_end.checked_add((16 - data_end % 16) % 16) {
            Some(x) => x,
            None => {
                return Err(WpakError::TooLarge);
            },
        }
    } else {
        0
    };
    // Header.
    let mut out: Vec<u8> = Vec::new();
    out.push(0x57u8);
    out.push(0x50u8);
    out.push(0x41u8);
    out.push(0x4Bu8);
    proof {
        assert(out@ =~= wpak_magic());
    }
    push_le32(&mut out, CURRENT_VERSION);
    push_le32(&mut out, if has_guid { FLAG_HAS_GUID_TABLE } else { 0 });
    push_le64(&mut out, n as u64);
    push_le64(&mut out, HEADER_SIZE as u64);
    push_le64(&mut out, (n * FILE_ENTRY_SIZE) as u64);
    push_le64(&mut out, ds as u64);
    push_le64(&mut out, gstart as u64);
    proof {
        assert(out@ == header_bytes(sorted));
    }
    // Index.
    let ghost header = out@;
    k = 0;
    while k < n
        invariant
            n == entries@.len(),
            es == entry_views(entries@),
            ord == usize_as_ints(order@),
            order@.len() == n,
            forall|j: int| 0 <= j < n ==> 0 <= #[trigger] ord[j] < n,
            sorted == in_order(es, ord),
            payloads@.len() == n,
            forall|j: int| 0 <= j < n ==> (#[trigger] payloads@[j])@ == payload(sorted[j]),
            name_lens@.len() == n,
            forall|j: int| 0 <= j < n ==> #[trigger] name_lens@[j] == names_blob(sorted, j).len(),
            data_offs@.len() == n,
            forall|j: int| 0 <= j < n ==> #[trigger] data_offs@[j] == data_blob(sorted, j).len(),
            ds == data_start(sorted),
            ds == HEADER_SIZE + FILE_ENTRY_SIZE * n + names@.len(),
            names@ == names_blob(sorted, n as int),
            k <= n,
            out@ == header + index_blob(sorted, k as int),
        decreases n - k,
    {
        proof {
            assert(ord[k as int] == order@[k as int] as int);
        }
        let e = &entries[order[k]];
        proof {
            assert(sorted[k as int] == es[ord[k as int]]);
            assert(es[ord[k as int]] == entries@[ord[k as int]]@);
            lemma_names_blob_prefix_len(sorted, k as int, n as int);
        }
        let ghost before = out@;
        push_le64(&mut out, e.path_hash);
        push_le64(&mut out, (HEADER_SIZE + FILE_ENTRY_SIZE * n + name_lens[k]) as u64);
        push_le64(&mut out, data_offs[k] as u64);
        push_le64(&mut out, e.data.len() as u64);
        let csize: u64 = if e.compression == Compression::Raw {
            0
        } else {
            payloads[k].len() as u64
        };
        push_le64(&mut out, csize);
        out.push(e.compression.id());
        push_zeros(&mut out, 7);
        proof {
            let rec = entry_record(sorted, k as int);
            assert(out@ =~= before + rec);
            assert(index_blob(sorted, k + 1) == index_blob(sorted, k as int) + rec);
            assert(out@ =~= header + index_blob(sorted, k + 1));
        }
        k = k + 1;
    }
    append_bytes(&mut out, names.as_slice());
    append_bytes(&mut out, dsec.as_slice());
    if has_guid {
        let body_len = out.len();
        proof {
            lemma_header_len(sorted);
            lemma_index_blob_len(sorted, n as int);
            assert(body_len == data_end);
        }
        push_zeros(&mut out, (16 - body_len % 16) % 16);
        let ghost body = out@;
        k = 0;
        while k < n
            invariant
                n == entries@.len(),
                es == entry_views(entries@),
                ord == usize_as_ints(order@),
                order@.len() == n,
                forall|j: int| 0 <= j < n ==> 0 <= #[trigger] ord[j] < n,
                sorted == in_order(es, ord),
                k <= n,
                out@ == body + guid_blob(sorted, k as int),
            decreases n - k,
        {
            proof {
                assert(sorted[k as int] == es[ord[k as int]]);
                assert(es[ord[k as int]] == entries@[ord[k as int]]@);
            }
            let g = match entries[order[k]].guid {
                Some(v) => v,
                None => 0,
            };
            let row = guid_to_bytes_le(g);
            append_bytes(&mut out, row.as_slice());
            proof {
                assert(out@ =~= body + guid_blob(sorted, k + 1));
            }
            k = k + 1;
        }
    }
    proof {
        lemma_index_order_unique(es, ord, index_order_of(es));
        assert(has_guid == has_any_guid(sorted));
        assert(out@ =~= archive_image(sorted));
        assert forall|i: int| 0 <= i < entries@.len() implies decompressed(
            payload(#[trigger] entry_views(entries@)[i]),
            entries@[i].compression,
        ) == Ok::<Seq<u8>, WpakError>(entries@[i].data@) by {
            assert(lists_index(ord, i));
            let k = choose|k: int| 0 <= k < ord.len() && ord[k] == i;
            assert(sorted[k] == es[i]);
        }
    }
    Ok(out)
}

/// The data section only grows as entries are added.
proof fn lemma_data_blob_grows(es: Seq<EntryView>, j: int, k: int)
    requires
        0 <= j <= k,
    ensures
        data_blob(es, j).len() <= data_blob(es, k).len(),
    decreases k - j,
{
    if j < k {
        lemma_data_blob_grows(es, j, k - 1);
    }
}

/// The image holds the header, index, names and data section, and after
/// them, when some entry has a GUID, the padding and at least one table row.
proof fn lemma_image_covers(es: Seq<EntryView>)
    ensures
        archive_image(es).len() >= data_end(es),
        has_any_guid(es) ==> archive_image(es).len() >= data_end(es) + pad16(data_end(es)) + 16,
{
    let n = es.len() as int;
    lemma_header_len(es);
    lemma_index_blob_len(es, n);
    let body = header_bytes(es) + index_blob(es, n) + names_blob(es, n) + data_blob(es, n);
    assert(body.len() == data_end(es));
    if has_any_guid(es) {
        crate::wpak_laws::lemma_guid_blob_len(es, n);
        let k = choose|k: int| 0 <= k < es.len() && (#[trigger] es[k]).guid is Some;
        assert(n >= 1);
    }
}

pub(crate) proof fn lemma_le_lens()
    ensures
        forall|x: u32| #[trigger] le32(x).len() == 4,
        forall|x: u64| #[trigger] le64(x).len() == 8,
{
    vstd::bytes::lemma_auto_spec_u32_to_from_le_bytes();
    vstd::bytes::lemma_auto_spec_u64_to_from_le_bytes();
}

pub(crate) proof fn lemma_header_len(es: Seq<EntryView>)
    ensures
        header_bytes(es).len() == HEADER_SIZE,
{
    lemma_le_lens();
}

pub(crate) proof fn lemma_index_blob_len(es: Seq<EntryView>, k: int)
    requires
        0 <= k,
    ensures
        index_blob(es, k).len() == FILE_ENTRY_SIZE * k,
    decreases k,
{
    lemma_le_lens();
    if k > 0 {
        lemma_index_blob_len(es, k - 1);
    }
}

proof fn lemma_names_blob_prefix_len(es: Seq<EntryView>, j: int, k: int)
    requires
        0 <= j <= k,
    ensures
        names_blob(es, j).len() <= names_blob(es, k).len(),
    decreases k - j,
{
    if j < k {
        lemma_names_blob_prefix_len(es, j, k - 1);
    }
}

} // verus!
