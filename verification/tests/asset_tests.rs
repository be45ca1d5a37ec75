use waraner_client::asset_id::{
    guid_from_meta, meta_text, AssetId, AssetRecord, AssetTable, DataSource, MetaError,
};
use waraner_client::wpak::fnv1a;

#[test]
fn asset_id_round_trip() {
    let id = AssetId::for_path("textures/player.png");
    assert_eq!(id.path, "textures/player.png");
    assert_eq!(id.path_hash, fnv1a("textures/player.png"));
    assert_eq!(uuid::Uuid::from_u128(id.guid).get_version(), Some(uuid::Version::Random));
}

#[test]
fn asset_table_insert_lookup() {
    let mut table = AssetTable::new();
    let id = AssetId::for_path("meshes/crate.wmesh");
    let record = AssetRecord::new(id.clone(), DataSource::Loose);
    table.insert(record);

    let by_hash = table.by_hash(id.path_hash).unwrap();
    assert_eq!(by_hash.id.path, "meshes/crate.wmesh");

    let by_guid = table.by_guid(&id.guid).unwrap();
    assert_eq!(by_guid.id.path_hash, id.path_hash);

    let by_path = table.by_path("MESHES\\Crate.wmesh").unwrap();
    assert_eq!(by_path.id.path_hash, id.path_hash);

    assert!(table.contains_path("meshes/crate.wmesh"));
    assert!(table.contains_hash(id.path_hash));
    assert!(table.contains_guid(&id.guid));
}

#[test]
fn asset_record_ref_count() {
    let id = AssetId::for_path("test.dat");
    let mut record = AssetRecord::new(id, DataSource::Unassigned);
    assert_eq!(record.refs(), 0);
    record.acquire();
    record.acquire();
    assert_eq!(record.refs(), 2);
    record.release();
    assert_eq!(record.refs(), 1);
    record.release();
    assert_eq!(record.refs(), 0);
}

#[test]
fn meta_file_round_trip() {
    let guid = uuid::Uuid::new_v4();
    let text = meta_text(guid.as_u128());
    let loaded = guid_from_meta(&text).expect("read meta");
    assert_eq!(loaded, guid.as_u128());
    assert_eq!(text, guid.to_string());
}

#[test]
fn normalize_path_consistency() {
    let raw = "TEXTURES\\Player.PNG";
    let id = AssetId::for_path(raw);
    assert_eq!(id.path, "textures/player.png");
    assert_eq!(id.path_hash, fnv1a("textures/player.png"));
}

#[test]
fn release_at_zero_reports_zero_and_wraps_the_count() {
    let mut record = AssetRecord::new(AssetId::for_path_with_guid("a.bin", 7), DataSource::Loose);
    assert_eq!(record.release(), 0);
    assert_eq!(record.refs(), u32::MAX);
}

#[test]
fn record_data_is_kept() {
    let mut record = AssetRecord::new(AssetId::for_path_with_guid("a.bin", 7), DataSource::Loose);
    assert!(record.data().is_none());
    record.set_data(vec![1, 2, 3]);
    assert_eq!(record.data().map(|d| d.as_slice()), Some(&[1u8, 2, 3][..]));
}

#[test]
fn insert_replaces_and_evict_removes() {
    let mut table = AssetTable::new();
    let a = AssetId::for_path_with_guid("a.bin", 1);
    let b = AssetId::for_path_with_guid("A.BIN", 2);
    table.insert(AssetRecord::new(a.clone(), DataSource::Loose));
    table.insert(AssetRecord::new(b.clone(), DataSource::Loose));
    assert_eq!(table.record_count(), 1);
    assert_eq!(table.by_hash(a.path_hash).unwrap().id.guid, 2);
    assert!(table.contains_guid(&2));
    table.evict(a.path_hash);
    assert_eq!(table.record_count(), 0);
    assert!(!table.contains_hash(a.path_hash));
    assert!(!table.contains_guid(&2));
}

#[test]
fn evict_unreferenced_keeps_held_records() {
    let mut table = AssetTable::new();
    let mut held = AssetRecord::new(AssetId::for_path_with_guid("held.bin", 10), DataSource::Loose);
    held.acquire();
    table.insert(held);
    table.insert(AssetRecord::new(AssetId::for_path_with_guid("free.bin", 11), DataSource::Loose));
    table.evict_unreferenced();
    assert!(table.contains_path("held.bin"));
    assert!(!table.contains_path("free.bin"));
    assert!(!table.contains_guid(&11));
    assert_eq!(table.record_count(), 1);
}

#[test]
fn meta_text_has_hyphenated_guid() {
    let g: u128 = 0x0123_4567_89ab_cdef_0011_2233_4455_6677;
    assert_eq!(meta_text(g), "01234567-89ab-cdef-0011-223344556677");
    assert_eq!(guid_from_meta("  01234567-89ab-cdef-0011-223344556677\n"), Ok(g));
}

#[test]
fn meta_without_guid_is_an_error() {
    assert_eq!(guid_from_meta("not a guid"), Err(MetaError::InvalidGuid));
}

#[test]
fn reinserting_a_path_under_a_new_guid_drops_the_old_guid() {
    let mut table = AssetTable::new();
    let g1: u128 = 0x1111_0000_0000_4000_8000_0000_0000_0001;
    let g2: u128 = 0x2222_0000_0000_4000_8000_0000_0000_0002;
    table.insert(AssetRecord::new(AssetId::for_path_with_guid("a.png", g1), DataSource::Loose));
    table.insert(AssetRecord::new(AssetId::for_path_with_guid("a.png", g2), DataSource::Loose));
    assert!(table.by_guid(&g1).is_none());
    assert!(!table.contains_guid(&g1));
    assert_eq!(table.by_guid(&g2).unwrap().id.guid, g2);
    assert_eq!(table.record_count(), 1);
}
