use waraner_client::asset_id::DataSource;
use waraner_client::asset_system::{AssetError, AssetSystem};
use waraner_client::wpak::{fnv1a, Compression, WpakArchive, WpakError};
use waraner_client::wpak_build::{build_archive_bytes, FileEntry};

fn entry(name: &str, data: &[u8], guid: Option<u128>) -> FileEntry {
    FileEntry {
        path: name.to_string(),
        path_hash: fnv1a(name),
        data: data.to_vec(),
        compression: Compression::Lz4,
        guid,
    }
}

fn archive(entries: &[FileEntry]) -> WpakArchive {
    WpakArchive::from_bytes(build_archive_bytes(entries).unwrap()).unwrap()
}

#[test]
fn get_bytes_searches_archives_in_order_and_caches() {
    let a = archive(&[entry("textures/a.png", &[1, 1], Some(0xA))]);
    let b = archive(&[entry("textures/a.png", &[2, 2], Some(0xB)), entry("sounds/b.ogg", &[3], None)]);
    let mut sys = AssetSystem::with_archives(vec![a, b], None);
    assert!(sys.contains("TEXTURES\\A.PNG", false));
    assert!(!sys.contains("missing.bin", false));
    // Without a loose directory, a loose file cannot resolve a path.
    assert!(!sys.contains("missing.bin", true));
    assert_eq!(sys.get_bytes("Textures/A.png"), Ok(vec![1, 1]));
    let rec = sys.table().by_path("textures/a.png").unwrap();
    assert_eq!(rec.id.guid, 0xA);
    assert_eq!(rec.refs(), 1);
    assert_eq!(rec.data_source, DataSource::Archive { archive_index: 0 });
    // A second request is served from the table.
    assert_eq!(sys.get_bytes("textures/a.png"), Ok(vec![1, 1]));
    assert_eq!(sys.table().record_count(), 1);
    assert_eq!(sys.get_bytes("sounds/b.ogg"), Ok(vec![3]));
    let rec = sys.table().by_path("sounds/b.ogg").unwrap();
    assert_eq!(rec.data_source, DataSource::Archive { archive_index: 1 });
    assert_eq!(uuid::Uuid::from_u128(rec.id.guid).get_version(), Some(uuid::Version::Random));
    assert_eq!(sys.get_bytes("nope.bin"), Err(AssetError::NotFound));
}

#[test]
fn get_bytes_by_guid_and_guid_pairs() {
    let a = archive(&[entry("x.bin", &[7], Some(5)), entry("y.bin", &[8], Some(6))]);
    let b = archive(&[entry("x.bin", &[9], Some(50)), entry("z.bin", &[10], Some(6))]);
    let mut sys = AssetSystem::new();
    sys.add_archive(a);
    sys.add_archive(b);
    assert_eq!(sys.resolve_guid_path(6).as_deref(), Some("y.bin"));
    assert_eq!(sys.resolve_guid_path(50).as_deref(), Some("x.bin"));
    assert_eq!(sys.resolve_guid_path(99), None);
    assert_eq!(sys.get_bytes_by_guid(50), Ok(vec![9]));
    assert_eq!(sys.get_bytes_by_guid(50), Ok(vec![9]));
    assert_eq!(sys.get_bytes_by_guid(99), Err(AssetError::NotFound));
    let mut pairs = sys.all_guid_pairs();
    pairs.sort();
    let mut expected = vec![(fnv1a("x.bin"), 5u128), (fnv1a("y.bin"), 6), (fnv1a("z.bin"), 6)];
    expected.sort();
    assert_eq!(pairs, expected);
}

#[test]
fn loose_files_are_cached_without_a_reference() {
    let mut sys = AssetSystem::with_archives(Vec::new(), Some("data/resources".to_string()));
    assert_eq!(sys.get_bytes("Maps\\Start.wmap"), Err(AssetError::NotFound));
    assert_eq!(sys.loose_path("Maps\\Start.wmap").as_deref(), Some("data/resources/maps/start.wmap"));
    sys.insert_loose("Maps\\Start.wmap", vec![4, 5]);
    assert_eq!(sys.get_bytes("maps/start.wmap"), Ok(vec![4, 5]));
    let rec = sys.table().by_path("maps/start.wmap").unwrap();
    assert_eq!(rec.refs(), 0);
    assert_eq!(rec.data_source, DataSource::Loose);
    assert_eq!(AssetSystem::new().loose_path("a"), None);
}

#[test]
fn read_errors_are_reported() {
    let mut bytes = build_archive_bytes(&[entry("bad.bin", &[1, 2, 3, 4], None)]).unwrap();
    // Corrupt the stored payload's compression id to zstd so it fails to decode.
    let record = 52;
    bytes[record + 40] = 1;
    let arc = WpakArchive::from_bytes(bytes).unwrap();
    let mut sys = AssetSystem::with_archives(vec![arc], None);
    assert_eq!(
        sys.get_bytes("bad.bin"),
        Err(AssetError::Read(WpakError::DecompressFailed(Compression::Zstd)))
    );
    sys.set_compression(Compression::Deflate);
    assert_eq!(sys.compression(), Compression::Deflate);
    sys.table_mut().evict(fnv1a("bad.bin"));
}

#[test]
fn load_ids() {
    let a = archive(&[entry("x.bin", &[7], Some(5)), entry("y.bin", &[8], None)]);
    let sys = AssetSystem::with_archives(vec![a], None);
    let id = sys.load_id_for_path("X.BIN", true);
    assert_eq!((id.guid, id.path_hash, id.path.as_str()), (5, fnv1a("x.bin"), "x.bin"));
    let id = sys.load_id_for_path("y.bin", true);
    assert_eq!(uuid::Uuid::from_u128(id.guid).get_version(), Some(uuid::Version::Random));
    let id = sys.load_id_for_guid(5, true);
    assert_eq!((id.guid, id.path.as_str()), (5, "x.bin"));
    let id = sys.load_id_for_guid(9, false);
    assert_eq!((id.guid, id.path_hash), (9, 0));
    assert_eq!(id.path, uuid::Uuid::from_u128(9).to_string());
}

#[test]
fn contains_counts_loose_files() {
    let sys = AssetSystem::with_archives(vec![], Some("res".to_string()));
    assert_eq!(sys.loose_path("Textures\\A.png").as_deref(), Some("res/textures/a.png"));
    assert!(sys.contains("textures/a.png", true));
    assert!(!sys.contains("textures/a.png", false));
    assert_eq!(sys.table().record_count(), 0);
}
