//! What reading a built archive gives back.

use vstd::prelude::*;
use vstd::utf8::encode_utf8;
use crate::wpak::{
    compression_code, compression_from_code, decompressed, guid_for_hash, guid_of_record,
    guid_value, has_guid_table, header_data_offset, header_error, header_file_count,
    header_guid_offset, header_index_offset, header_version, last_guid_with_hash,
    last_with_hash, lemma_name_end_step, name_end, parse_archive, parse_records, path_for_hash,
    path_hash, read_result, record_at, u32_at, u64_at, wpak_magic, Compression, RecordView,
    WpakError, CURRENT_VERSION, FILE_ENTRY_SIZE, FLAG_HAS_GUID_TABLE, HEADER_SIZE,
};
use crate::wpak_build::{
    archive_image, compressed_size, data_blob, data_end, data_start, entry_record, guid_blob,
    guid_le_bytes, guid_or_nil, guid_table_start, has_any_guid, header_bytes, in_order,
    index_before, index_blob, index_order_of, is_index_order, le32, le64, lemma_header_len,
    lemma_index_blob_len, lemma_le_lens, lists_index, names_blob, names_start, pad16, payload,
    record_bytes, wpak_image, zeros, EntryView,
};

verus! {

proof fn lemma_sub_left(a: Seq<u8>, b: Seq<u8>, x: int, y: int)
    requires
        0 <= x <= y <= a.len(),
    ensures
        (a + b).subrange(x, y) == a.subrange(x, y),
{
    assert((a + b).subrange(x, y) =~= a.subrange(x, y));
}

proof fn lemma_sub_right(a: Seq<u8>, b: Seq<u8>, x: int, y: int)
    requires
        a.len() <= x <= y <= a.len() + b.len(),
    ensures
        (a + b).subrange(x, y) == b.subrange(x - a.len(), y - a.len()),
{
    assert((a + b).subrange(x, y) =~= b.subrange(x - a.len(), y - a.len()));
}

/// The body of an image: header, index, names, data.
spec fn image_body(es: Seq<EntryView>) -> Seq<u8> {
    let n = es.len() as int;
    header_bytes(es) + index_blob(es, n) + names_blob(es, n) + data_blob(es, n)
}

proof fn lemma_image_len(es: Seq<EntryView>)
    ensures
        image_body(es).len() == data_end(es),
        archive_image(es).len() >= data_end(es),
        image_body(es).subrange(0, data_end(es)) == image_body(es),
        archive_image(es).subrange(0, data_end(es)) == image_body(es),
{
    lemma_header_len(es);
    lemma_index_blob_len(es, es.len() as int);
    let body = image_body(es);
    assert(body.subrange(0, data_end(es)) =~= body);
    if has_any_guid(es) {
        lemma_sub_left(body, zeros(pad16(body.len() as int)) + guid_blob(es, es.len() as int), 0, data_end(es));
        assert(archive_image(es) =~= body + (zeros(pad16(body.len() as int)) + guid_blob(es, es.len() as int)));
    }
}

/// Any range inside the body reads the same in the image.
proof fn lemma_image_body(es: Seq<EntryView>, x: int, y: int)
    requires
        0 <= x <= y <= data_end(es),
    ensures
        archive_image(es).subrange(x, y) == image_body(es).subrange(x, y),
{
    lemma_image_len(es);
    let img = archive_image(es);
    assert(img.subrange(x, y) =~= img.subrange(0, data_end(es)).subrange(x, y));
    assert(image_body(es).subrange(x, y) =~= image_body(es).subrange(0, data_end(es)).subrange(x, y));
}

proof fn lemma_image_header(es: Seq<EntryView>, x: int, y: int)
    requires
        0 <= x <= y <= HEADER_SIZE,
    ensures
        archive_image(es).subrange(x, y) == header_bytes(es).subrange(x, y),
{
    let n = es.len() as int;
    lemma_header_len(es);
    lemma_index_blob_len(es, n);
    lemma_image_body(es, x, y);
    let h = header_bytes(es);
    let i = index_blob(es, n);
    let nm = names_blob(es, n);
    let d = data_blob(es, n);
    lemma_sub_left(h + i + nm, d, x, y);
    lemma_sub_left(h + i, nm, x, y);
    lemma_sub_left(h, i, x, y);
}

proof fn lemma_image_index(es: Seq<EntryView>, x: int, y: int)
    requires
        HEADER_SIZE <= x <= y <= names_start(es.len() as int),
    ensures
        archive_image(es).subrange(x, y) == index_blob(es, es.len() as int).subrange(
            x - HEADER_SIZE,
            y - HEADER_SIZE,
        ),
{
    let n = es.len() as int;
    lemma_header_len(es);
    lemma_index_blob_len(es, n);
    lemma_image_body(es, x, y);
    let h = header_bytes(es);
    let i = index_blob(es, n);
    let nm = names_blob(es, n);
    let d = data_blob(es, n);
    lemma_sub_left(h + i + nm, d, x, y);
    lemma_sub_left(h + i, nm, x, y);
    lemma_sub_right(h, i, x, y);
}

proof fn lemma_image_names(es: Seq<EntryView>, x: int, y: int)
    requires
        names_start(es.len() as int) <= x <= y <= data_start(es),
    ensures
        archive_image(es).subrange(x, y) == names_blob(es, es.len() as int).subrange(
            x - names_start(es.len() as int),
            y - names_start(es.len() as int),
        ),
{
    let n = es.len() as int;
    lemma_header_len(es);
    lemma_index_blob_len(es, n);
    lemma_image_body(es, x, y);
    let h = header_bytes(es);
    let i = index_blob(es, n);
    let nm = names_blob(es, n);
    let d = data_blob(es, n);
    lemma_sub_left(h + i + nm, d, x, y);
    lemma_sub_right(h + i, nm, x, y);
}

proof fn lemma_image_data(es: Seq<EntryView>, x: int, y: int)
    requires
        data_start(es) <= x <= y <= data_end(es),
    ensures
        archive_image(es).subrange(x, y) == data_blob(es, es.len() as int).subrange(
            x - data_start(es),
            y - data_start(es),
        ),
{
    let n = es.len() as int;
    lemma_header_len(es);
    lemma_index_blob_len(es, n);
    lemma_image_body(es, x, y);
    let h = header_bytes(es);
    let i = index_blob(es, n);
    let nm = names_blob(es, n);
    let d = data_blob(es, n);
    lemma_sub_right(h + i + nm, d, x, y);
}

proof fn lemma_image_guids(es: Seq<EntryView>, x: int, y: int)
    requires
        has_any_guid(es),
        guid_table_start(es) <= x <= y <= guid_table_start(es) + guid_blob(es, es.len() as int).len(),
    ensures
        archive_image(es).len() == guid_table_start(es) + guid_blob(es, es.len() as int).len(),
        archive_image(es).subrange(x, y) == guid_blob(es, es.len() as int).subrange(
            x - guid_table_start(es),
            y - guid_table_start(es),
        ),
{
    lemma_image_len(es);
    let body = image_body(es);
    let z = zeros(pad16(body.len() as int));
    let g = guid_blob(es, es.len() as int);
    lemma_sub_right(body + z, g, x, y);
}

proof fn lemma_from_le() 
    ensures
        forall|x: u32| #[trigger] vstd::bytes::spec_u32_from_le_bytes(le32(x)) == x,
        forall|x: u64| #[trigger] vstd::bytes::spec_u64_from_le_bytes(le64(x)) == x,
        forall|x: u32| #[trigger] le32(x).len() == 4,
        forall|x: u64| #[trigger] le64(x).len() == 8,
{
    vstd::bytes::lemma_auto_spec_u32_to_from_le_bytes();
    vstd::bytes::lemma_auto_spec_u64_to_from_le_bytes();
    assert forall|x: u32| #[trigger] vstd::bytes::spec_u32_from_le_bytes(le32(x)) == x by {
        assert(vstd::bytes::spec_u32_to_le_bytes(x).len() == 4);
    }
}

/// The header fields of an image.
proof fn lemma_header_fields(es: Seq<EntryView>)
    ensures
        archive_image(es).len() >= HEADER_SIZE,
        archive_image(es).subrange(0, 4) == wpak_magic(),
        u32_at(archive_image(es), 4) == CURRENT_VERSION,
        u32_at(archive_image(es), 8) == (if has_any_guid(es) {
            FLAG_HAS_GUID_TABLE
        } else {
            0
        }),
        u64_at(archive_image(es), 12) == es.len() as u64,
        u64_at(archive_image(es), 20) == HEADER_SIZE as u64,
        u64_at(archive_image(es), 36) == data_start(es) as u64,
        u64_at(archive_image(es), 44) == guid_table_start(es) as u64,
{
    lemma_from_le();
    lemma_image_len(es);
    lemma_header_len(es);
    lemma_index_blob_len(es, es.len() as int);
    let h = header_bytes(es);
    let img = archive_image(es);
    lemma_image_header(es, 0, 4);
    lemma_image_header(es, 4, 8);
    lemma_image_header(es, 8, 12);
    lemma_image_header(es, 12, 20);
    lemma_image_header(es, 20, 28);
    lemma_image_header(es, 36, 44);
    lemma_image_header(es, 44, 52);
    assert(h.subrange(0, 4) =~= wpak_magic());
    assert(h.subrange(4, 8) =~= le32(CURRENT_VERSION));
    assert(h.subrange(8, 12) =~= le32(
        if has_any_guid(es) {
            FLAG_HAS_GUID_TABLE
        } else {
            0
        },
    ));
    assert(h.subrange(12, 20) =~= le64(es.len() as u64));
    assert(h.subrange(20, 28) =~= le64(HEADER_SIZE as u64));
    assert(h.subrange(36, 44) =~= le64(data_start(es) as u64));
    assert(h.subrange(44, 52) =~= le64(guid_table_start(es) as u64));
}

/// The fields of one index record.
proof fn lemma_record_fields(hash: u64, name_off: u64, data_off: u64, size: u64, csize: u64, id: u8)
    ensures
        record_bytes(hash, name_off, data_off, size, csize, id).len() == FILE_ENTRY_SIZE,
        vstd::bytes::spec_u64_from_le_bytes(
            record_bytes(hash, name_off, data_off, size, csize, id).subrange(0, 8),
        ) == hash,
        vstd::bytes::spec_u64_from_le_bytes(
            record_bytes(hash, name_off, data_off, size, csize, id).subrange(8, 16),
        ) == name_off,
        vstd::bytes::spec_u64_from_le_bytes(
            record_bytes(hash, name_off, data_off, size, csize, id).subrange(16, 24),
        ) == data_off,
        vstd::bytes::spec_u64_from_le_bytes(
            record_bytes(hash, name_off, data_off, size, csize, id).subrange(24, 32),
        ) == size,
        vstd::bytes::spec_u64_from_le_bytes(
            record_bytes(hash, name_off, data_off, size, csize, id).subrange(32, 40),
        ) == csize,
        record_bytes(hash, name_off, data_off, size, csize, id)[40] == id,
{
    lemma_from_le();
    let r = record_bytes(hash, name_off, data_off, size, csize, id);
    assert(r.subrange(0, 8) =~= le64(hash));
    assert(r.subrange(8, 16) =~= le64(name_off));
    assert(r.subrange(16, 24) =~= le64(data_off));
    assert(r.subrange(24, 32) =~= le64(size));
    assert(r.subrange(32, 40) =~= le64(csize));
}

proof fn lemma_index_blob_record(es: Seq<EntryView>, k: int, m: int)
    requires
        0 <= k < m,
    ensures
        index_blob(es, m).subrange(FILE_ENTRY_SIZE * k, FILE_ENTRY_SIZE * k + FILE_ENTRY_SIZE)
            == entry_record(es, k),
    decreases m,
{
    lemma_index_blob_len(es, m - 1);
    lemma_le_lens();
    let prev = index_blob(es, m - 1);
    let rec = entry_record(es, m - 1);
    assert(rec.len() == FILE_ENTRY_SIZE);
    if k == m - 1 {
        lemma_sub_right(prev, rec, FILE_ENTRY_SIZE * k, FILE_ENTRY_SIZE * k + FILE_ENTRY_SIZE);
        assert(rec.subrange(0, FILE_ENTRY_SIZE as int) =~= rec);
    } else {
        lemma_index_blob_record(es, k, m - 1);
        lemma_sub_left(prev, rec, FILE_ENTRY_SIZE * k, FILE_ENTRY_SIZE * k + FILE_ENTRY_SIZE);
    }
}

/// Entry `k`'s name in the name block of the first `m` entries.
proof fn lemma_names_blob_entry(es: Seq<EntryView>, k: int, m: int)
    requires
        0 <= k < m,
    ensures
        ({
            let po = names_blob(es, k).len() as int;
            let enc = encode_utf8(es[k].path);
            &&& names_blob(es, m).len() >= po + enc.len() + 1
            &&& names_blob(es, m).subrange(po, po + enc.len()) == enc
            &&& names_blob(es, m)[po + enc.len()] == 0
        }),
    decreases m,
{
    let prev = names_blob(es, m - 1);
    let enc = encode_utf8(es[m - 1].path);
    if k == m - 1 {
        assert(names_blob(es, m).subrange(prev.len() as int, (prev.len() + enc.len()) as int) =~= enc);
    } else {
        lemma_names_blob_entry(es, k, m - 1);
        let po = names_blob(es, k).len() as int;
        let e = encode_utf8(es[k].path);
        assert(names_blob(es, m).subrange(po, po + e.len()) =~= prev.subrange(po, po + e.len()));
    }
}

/// Entry `k`'s payload in the data block of the first `m` entries.
proof fn lemma_data_blob_entry(es: Seq<EntryView>, k: int, m: int)
    requires
        0 <= k < m,
    ensures
        ({
            let d = data_blob(es, k).len() as int;
            let p = payload(es[k]);
            &&& data_blob(es, m).len() >= d + p.len()
            &&& data_blob(es, m).subrange(d, d + p.len()) == p
        }),
    decreases m,
{
    let prev = data_blob(es, m - 1);
    let p = payload(es[m - 1]);
    if k == m - 1 {
        assert(data_blob(es, m).subrange(prev.len() as int, (prev.len() + p.len()) as int) =~= p);
    } else {
        lemma_data_blob_entry(es, k, m - 1);
        let d = data_blob(es, k).len() as int;
        let q = payload(es[k]);
        assert(data_blob(es, m).subrange(d, d + q.len()) =~= prev.subrange(d, d + q.len()));
    }
}

proof fn lemma_guid_le_len(g: u128)
    ensures
        guid_le_bytes(g).len() == 16,
{
    vstd::bytes::lemma_auto_spec_u128_to_from_le_bytes();
}

/// Entry `k`'s row in the GUID table of the first `m` entries.
proof fn lemma_guid_blob_entry(es: Seq<EntryView>, k: int, m: int)
    requires
        0 <= k < m,
    ensures
        guid_blob(es, m).len() == 16 * m,
        guid_blob(es, m).subrange(16 * k, 16 * k + 16) == guid_le_bytes(guid_or_nil(es[k].guid)),
    decreases m,
{
    lemma_guid_blob_len(es, m - 1);
    let prev = guid_blob(es, m - 1);
    let row = guid_le_bytes(guid_or_nil(es[m - 1].guid));
    lemma_guid_le_len(guid_or_nil(es[m - 1].guid));
    if k == m - 1 {
        assert((prev + row).subrange(16 * k, 16 * k + 16) =~= row);
    } else {
        lemma_guid_blob_entry(es, k, m - 1);
        assert((prev + row).subrange(16 * k, 16 * k + 16) =~= prev.subrange(16 * k, 16 * k + 16));
    }
}

pub(crate) proof fn lemma_guid_blob_len(es: Seq<EntryView>, m: int)
    requires
        0 <= m,
    ensures
        guid_blob(es, m).len() == 16 * m,
    decreases m,
{
    if m > 0 {
        lemma_guid_blob_len(es, m - 1);
        lemma_guid_le_len(guid_or_nil(es[m - 1].guid));
    }
}

/// No entry name holds a zero byte, so each name ends at its terminator.
pub open spec fn names_unterminated(es: Seq<EntryView>) -> bool {
    forall|k: int| 0 <= k < es.len() ==> !encode_utf8((#[trigger] es[k]).path).contains(0u8)
}

/// Every offset in the image fits the 64-bit fields that record it.
pub open spec fn image_fits(es: Seq<EntryView>) -> bool {
    archive_image(es).len() <= u64::MAX
}

/// The index records a reader finds in the image of `es` (given in index
/// order).
pub open spec fn image_records(es: Seq<EntryView>) -> Seq<RecordView> {
    Seq::new(
        es.len(),
        |k: int|
            RecordView {
                path_hash: es[k].path_hash,
                base: HEADER_SIZE + FILE_ENTRY_SIZE * k,
                path: es[k].path,
                guid: guid_of_record(archive_image(es), k),
            },
    )
}

proof fn lemma_image_offsets(es: Seq<EntryView>)
    ensures
        HEADER_SIZE <= names_start(es.len() as int) <= data_start(es) <= data_end(es)
            <= archive_image(es).len(),
{
    lemma_image_len(es);
}

proof fn lemma_record_at_image(es: Seq<EntryView>, k: int)
    requires
        0 <= k < es.len(),
        image_fits(es),
        names_unterminated(es),
    ensures
        record_at(archive_image(es), k) == Ok::<RecordView, WpakError>(image_records(es)[k]),
{
    let n = es.len() as int;
    let img = archive_image(es);
    lemma_header_fields(es);
    lemma_image_offsets(es);
    let base = HEADER_SIZE + FILE_ENTRY_SIZE * k;
    assert(header_index_offset(img) == HEADER_SIZE);
    lemma_image_index(es, base, base + FILE_ENTRY_SIZE);
    lemma_index_blob_record(es, k, n);
    let rec = entry_record(es, k);
    assert(img.subrange(base, base + FILE_ENTRY_SIZE) == rec);
    let name_off = (names_start(n) + names_blob(es, k).len()) as u64;
    lemma_record_fields(
        es[k].path_hash,
        name_off,
        data_blob(es, k).len() as u64,
        es[k].data.len() as u64,
        compressed_size(es[k]),
        compression_code(es[k].compression),
    );
    assert(img.subrange(base, base + 8) =~= rec.subrange(0, 8));
    assert(img.subrange(base + 8, base + 16) =~= rec.subrange(8, 16));
    assert(u64_at(img, base) == es[k].path_hash);
    assert(u64_at(img, base + 8) == name_off);
    // The name.
    lemma_names_blob_entry(es, k, n);
    let enc = encode_utf8(es[k].path);
    let nb = names_blob(es, k).len() as int;
    let po = names_start(n) + nb;
    assert(names_blob(es, n).len() == data_start(es) - names_start(n));
    assert(name_off as int == po);
    lemma_image_names(es, po, po + enc.len());
    lemma_image_names(es, po + enc.len(), po + enc.len() + 1);
    assert(img.subrange(po, po + enc.len()) == enc);
    assert(img[po + enc.len()] == 0) by {
        assert(img.subrange(po + enc.len(), po + enc.len() + 1)[0] == img[po + enc.len()]);
        assert(names_blob(es, n).subrange(nb + enc.len(), nb + enc.len() + 1)[0] == names_blob(
            es,
            n,
        )[nb + enc.len()]);
    }
    assert forall|j: int| po <= j < po + enc.len() implies img[j] != 0 by {
        assert(img.subrange(po, po + enc.len())[j - po] == img[j]);
        assert(enc[j - po] == img[j]);
        if img[j] == 0 {
            assert(enc.contains(0u8));
        }
    }
    lemma_name_end_step(img, po, po + enc.len());
    assert(name_end(img, po) == Some(po + enc.len()));
    vstd::utf8::encode_utf8_valid_utf8(es[k].path);
    vstd::utf8::encode_utf8_decode_utf8(es[k].path);
}

proof fn lemma_parse_image_upto(es: Seq<EntryView>, m: int)
    requires
        0 <= m <= es.len(),
        image_fits(es),
        names_unterminated(es),
    ensures
        parse_records(archive_image(es), m as nat) == Ok::<Seq<RecordView>, WpakError>(
            image_records(es).take(m),
        ),
    decreases m,
{
    if m > 0 {
        lemma_parse_image_upto(es, m - 1);
        lemma_record_at_image(es, m - 1);
        assert(image_records(es).take(m - 1).push(image_records(es)[m - 1]) =~= image_records(
            es,
        ).take(m));
    } else {
        assert(image_records(es).take(0) =~= Seq::<RecordView>::empty());
    }
}

/// The image of entries in index order reads back as their records.
proof fn lemma_parse_image(es: Seq<EntryView>)
    requires
        image_fits(es),
        names_unterminated(es),
    ensures
        parse_archive(archive_image(es)) == Ok::<Seq<RecordView>, WpakError>(image_records(es)),
        header_file_count(archive_image(es)) == es.len(),
{
    let img = archive_image(es);
    lemma_header_fields(es);
    assert(header_error(img) is None);
    lemma_parse_image_upto(es, es.len() as int);
    assert(image_records(es).take(es.len() as int) =~= image_records(es));
}

proof fn lemma_last_with_unique_hash(rs: Seq<RecordView>, k: int)
    requires
        0 <= k < rs.len(),
        forall|j: int| 0 <= j < rs.len() && j != k ==> (#[trigger] rs[j]).path_hash != rs[k].path_hash,
    ensures
        last_with_hash(rs, rs[k].path_hash) == Some(k),
        rs[k].guid != 0 ==> last_guid_with_hash(rs, rs[k].path_hash) == Some(k),
        rs[k].guid == 0 ==> last_guid_with_hash(rs, rs[k].path_hash) is None,
    decreases rs.len(),
{
    let h = rs[k].path_hash;
    if k < rs.len() - 1 {
        let d = rs.drop_last();
        assert forall|j: int| 0 <= j < d.len() && j != k implies (#[trigger] d[j]).path_hash != d[k].path_hash by {
            assert(d[j] == rs[j]);
        }
        lemma_last_with_unique_hash(d, k);
        assert(rs.last() == rs[rs.len() - 1]);
    } else if rs[k].guid == 0 {
        lemma_no_guid_with_hash(rs.drop_last(), h);
    }
}

proof fn lemma_no_guid_with_hash(rs: Seq<RecordView>, h: u64)
    requires
        forall|j: int| 0 <= j < rs.len() ==> (#[trigger] rs[j]).path_hash != h,
    ensures
        last_guid_with_hash(rs, h) is None,
    decreases rs.len(),
{
    if rs.len() > 0 {
        let d = rs.drop_last();
        assert forall|j: int| 0 <= j < d.len() implies (#[trigger] d[j]).path_hash != h by {
            assert(d[j] == rs[j]);
        }
        lemma_no_guid_with_hash(d, h);
    }
}

proof fn lemma_code_round_trip(c: Compression)
    ensures
        compression_from_code(compression_code(c)) == c,
{
}

proof fn lemma_entry_fields_in_image(es: Seq<EntryView>, k: int)
    requires
        0 <= k < es.len(),
    ensures
        ({
            let img = archive_image(es);
            let base = HEADER_SIZE + FILE_ENTRY_SIZE * k;
            &&& u64_at(img, base + 16) == data_blob(es, k).len() as u64
            &&& u64_at(img, base + 24) == es[k].data.len() as u64
            &&& u64_at(img, base + 32) == compressed_size(es[k])
            &&& img[base + 40] == compression_code(es[k].compression)
        }),
{
    let n = es.len() as int;
    let img = archive_image(es);
    lemma_image_offsets(es);
    let base = HEADER_SIZE + FILE_ENTRY_SIZE * k;
    lemma_image_index(es, base, base + FILE_ENTRY_SIZE);
    lemma_index_blob_record(es, k, n);
    let rec = entry_record(es, k);
    lemma_record_fields(
        es[k].path_hash,
        (names_start(n) + names_blob(es, k).len()) as u64,
        data_blob(es, k).len() as u64,
        es[k].data.len() as u64,
        compressed_size(es[k]),
        compression_code(es[k].compression),
    );
    let w = img.subrange(base, base + FILE_ENTRY_SIZE);
    assert(w == rec);
    assert(img.subrange(base + 16, base + 24) =~= w.subrange(16, 24));
    assert(img.subrange(base + 24, base + 32) =~= w.subrange(24, 32));
    assert(img.subrange(base + 32, base + 40) =~= w.subrange(32, 40));
    assert(w[40] == img[base + 40]);
}

proof fn lemma_payload_in_image(es: Seq<EntryView>, k: int)
    requires
        0 <= k < es.len(),
    ensures
        ({
            let img = archive_image(es);
            let start = data_start(es) + data_blob(es, k).len();
            let p = payload(es[k]);
            &&& start + p.len() <= img.len()
            &&& img.subrange(start, start + p.len()) == p
        }),
{
    let n = es.len() as int;
    lemma_image_offsets(es);
    lemma_data_blob_entry(es, k, n);
    let p = payload(es[k]);
    let start = data_start(es) + data_blob(es, k).len();
    lemma_image_data(es, start, start + p.len());
}

/// Reading entry `k` of an image gives its data back.
proof fn lemma_read_image(es: Seq<EntryView>, k: int)
    requires
        0 <= k < es.len(),
        image_fits(es),
        names_unterminated(es),
        es[k].path_hash == path_hash(es[k].path),
        forall|j: int| 0 <= j < es.len() && j != k ==> (#[trigger] es[j]).path_hash != es[k].path_hash,
        decompressed(payload(es[k]), es[k].compression) == Ok::<Seq<u8>, WpakError>(es[k].data),
    ensures
        read_result(archive_image(es), image_records(es), es[k].path) == Ok::<Seq<u8>, WpakError>(
            es[k].data,
        ),
        path_for_hash(image_records(es), path_hash(es[k].path)) == Some(es[k].path),
{
    let img = archive_image(es);
    let rs = image_records(es);
    lemma_last_with_unique_hash(rs, k);
    lemma_header_fields(es);
    lemma_image_offsets(es);
    lemma_entry_fields_in_image(es, k);
    lemma_payload_in_image(es, k);
    lemma_code_round_trip(es[k].compression);
    let base = HEADER_SIZE + FILE_ENTRY_SIZE * k;
    let c = es[k].compression;
    let p = payload(es[k]);
    let start = data_start(es) + data_blob(es, k).len();
    assert(header_data_offset(img) + u64_at(img, base + 16) == start);
    if c == Compression::Raw {
        assert(p == es[k].data);
    }
}

proof fn lemma_guid_flags()
    ensures
        (FLAG_HAS_GUID_TABLE & FLAG_HAS_GUID_TABLE) != 0,
        (0u32 & FLAG_HAS_GUID_TABLE) == 0,
{
    assert((1u32 & 1u32) != 0) by (bit_vector);
    assert((0u32 & 1u32) == 0) by (bit_vector);
}

/// How a GUID given to the builder reads back: the table row is written with
/// `Uuid::to_bytes_le` and read with `Uuid::from_bytes_le`, so it is the GUID
/// itself, or nil when the entry has none.
pub open spec fn guid_read_back(g: Option<u128>) -> u128 {
    guid_or_nil(g)
}

proof fn lemma_guid_image(es: Seq<EntryView>, k: int)
    requires
        0 <= k < es.len(),
        image_fits(es),
    ensures
        guid_of_record(archive_image(es), k) == (if has_any_guid(es) {
            guid_read_back(es[k].guid)
        } else {
            0
        }),
{
    let n = es.len() as int;
    let img = archive_image(es);
    lemma_header_fields(es);
    lemma_image_offsets(es);
    lemma_guid_flags();
    assert(header_version(img) == CURRENT_VERSION);
    if has_any_guid(es) {
        assert(has_guid_table(img));
        lemma_guid_blob_entry(es, k, n);
        lemma_image_guids(es, guid_table_start(es) + 16 * k, guid_table_start(es) + 16 * k + 16);
        crate::wpak_build::lemma_guid_bytes_round_trip(guid_or_nil(es[k].guid));
    } else {
        assert(!has_guid_table(img));
    }
}

/// Reading back a built archive gives what was packed. For entries whose
/// path hashes are their paths' hashes and distinct, whose names hold no zero
/// byte and whose payloads decompress to their data (as the builder
/// guarantees), and an archive small enough for its 64-bit offsets: the
/// archive opens with one record per entry, reading an entry's path gives its
/// data, its path resolves to the stored path, and its GUID (if the archive
/// has a GUID table and the GUID reads back non-nil) resolves too.
pub proof fn lemma_read_back_built_archive(entries: Seq<EntryView>, i: int)
    requires
        0 <= i < entries.len(),
        wpak_image(entries).len() <= u64::MAX,
        forall|j: int|
            0 <= j < entries.len() ==> !encode_utf8((#[trigger] entries[j]).path).contains(0u8),
        forall|j: int|
            0 <= j < entries.len() ==> (#[trigger] entries[j]).path_hash == path_hash(
                entries[j].path,
            ),
        forall|j: int, k: int|
            0 <= j < k < entries.len() ==> (#[trigger] entries[j]).path_hash != (
            #[trigger] entries[k]).path_hash,
        forall|j: int|
            0 <= j < entries.len() ==> decompressed(
                payload(#[trigger] entries[j]),
                entries[j].compression,
            ) == Ok::<Seq<u8>, WpakError>(entries[j].data),
    ensures
        parse_archive(wpak_image(entries)) is Ok,
        ({
            let img = wpak_image(entries);
            let rs = parse_archive(img)->Ok_0;
            let e = entries[i];
            let g = guid_read_back(e.guid);
            &&& header_file_count(img) == entries.len()
            &&& rs.len() == entries.len()
            &&& read_result(img, rs, e.path) == Ok::<Seq<u8>, WpakError>(e.data)
            &&& path_for_hash(rs, path_hash(e.path)) == Some(e.path)
            &&& guid_for_hash(rs, path_hash(e.path)) == (if has_any_guid(entries) && g != 0 {
                Some(g)
            } else {
                None::<u128>
            })
        }),
{
    crate::orders::lemma_index_order_exists(entries);
    let ord = index_order_of(entries);
    let s = in_order(entries, ord);
    let n = entries.len() as int;
    assert(lists_index(ord, i));
    let k = choose|k: int| 0 <= k < ord.len() && ord[k] == i;
    assert(s[k] == entries[i]);
    assert forall|j: int| 0 <= j < n implies #[trigger] s[j] == entries[ord[j]] by {}
    assert(names_unterminated(s)) by {
        assert forall|j: int| 0 <= j < n implies !encode_utf8((#[trigger] s[j]).path).contains(0u8) by {
            assert(s[j] == entries[ord[j]]);
        }
    }
    assert forall|j: int| 0 <= j < n && j != k implies (#[trigger] s[j]).path_hash != s[k].path_hash by {
        let a = ord[j];
        let b = ord[k];
        if j < k {
            assert(index_before(entries, ord[j], ord[k]));
        } else {
            assert(index_before(entries, ord[k], ord[j]));
        }
        assert(a != b);
        if a < b {
            assert(entries[a].path_hash != entries[b].path_hash);
        } else {
            assert(entries[b].path_hash != entries[a].path_hash);
        }
    }
    assert(has_any_guid(s) == has_any_guid(entries)) by {
        if has_any_guid(entries) {
            let j = choose|j: int| 0 <= j < n && (#[trigger] entries[j]).guid is Some;
            assert(lists_index(ord, j));
            let q = choose|q: int| 0 <= q < ord.len() && ord[q] == j;
            assert(s[q].guid is Some);
        }
        if has_any_guid(s) {
            let q = choose|q: int| 0 <= q < n && (#[trigger] s[q]).guid is Some;
            assert(entries[ord[q]].guid is Some);
        }
    }
    lemma_parse_image(s);
    lemma_read_image(s, k);
    lemma_guid_image(s, k);
    lemma_last_with_unique_hash(image_records(s), k);
}

} // verus!
