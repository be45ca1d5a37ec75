use waraner_client::wpak::{compress, decompress, fnv1a, normalize_path, Compression, WpakArchive, WpakError};
use waraner_client::wpak_build::{build_archive_bytes, FileEntry};

fn entry(name: &str, data: &[u8], compression: Compression) -> FileEntry {
    FileEntry {
        path: name.to_string(),
        path_hash: fnv1a(name),
        data: data.to_vec(),
        compression,
        guid: None,
    }
}

fn round_trip(entries: &[FileEntry]) {
    let bytes = build_archive_bytes(entries).expect("build");
    let arc = WpakArchive::from_bytes(bytes).expect("open");
    assert_eq!(arc.file_count(), entries.len() as u64);

    for e in entries {
        let got = arc.read(&e.path).expect(&format!("read {}", e.path));
        assert_eq!(&got[..], &e.data[..], "payload mismatch for {}", e.path);
        assert_eq!(arc.resolve_path(&e.path).as_deref(), Some(e.path.as_str()));
    }
}

#[test]
fn fnv1a_is_stable() {
    assert_eq!(fnv1a("textures/player.png"), fnv1a("TEXTURES\\player.PNG"));
}

#[test]
fn round_trip_uncompressed() {
    round_trip(&[
        entry("textures/player.png", &[1, 2, 3, 4, 5], Compression::Raw),
        entry("models/teapot.wmesh", &[9, 8, 7], Compression::Raw),
    ]);
}

#[test]
fn round_trip_all_compressions() {
    let payload = vec![42u8; 2048];
    round_trip(&[
        entry("a/zstd.bin", &payload, Compression::Zstd),
        entry("a/lz4.bin", &payload, Compression::Lz4),
        entry("a/deflate.bin", &payload, Compression::Deflate),
        entry("a/none.bin", &payload, Compression::Raw),
    ]);
}

#[test]
fn missing_asset_errors() {
    let bytes = build_archive_bytes(&[entry("exists.bin", &[1], Compression::Raw)]).unwrap();
    let arc = WpakArchive::from_bytes(bytes).unwrap();
    assert!(arc.read("nope.bin").is_err());
    assert_eq!(arc.read("nope.bin"), Err(WpakError::NotFound));
}

#[test]
fn fnv1a_known_values() {
    // FNV-1a 64 of the empty input is the offset basis.
    assert_eq!(fnv1a(""), 0xcbf2_9ce4_8422_2325);
    // FNV-1a 64 of "a".
    assert_eq!(fnv1a("a"), 0xaf63_dc4c_8601_ec8c);
    assert_eq!(fnv1a("A"), fnv1a("a"));
}

#[test]
fn normalize_path_strips_scheme_and_slashes() {
    assert_eq!(normalize_path("TEXTURES\\Player.PNG"), "textures/player.png");
    assert_eq!(normalize_path("asset://Models/Teapot.wmesh"), "models/teapot.wmesh");
    assert_eq!(normalize_path("/abs/Path"), "abs/path");
}

#[test]
fn compression_ids_round_trip() {
    for c in [Compression::Raw, Compression::Zstd, Compression::Lz4, Compression::Deflate] {
        assert_eq!(Compression::from_id(c.id()), c);
    }
    assert_eq!(Compression::from_id(200), Compression::Raw);
}

#[test]
fn compressed_payloads_differ_and_decode() {
    let raw = vec![7u8; 4096];
    for c in [Compression::Zstd, Compression::Lz4, Compression::Deflate] {
        let packed = compress(&raw, c).unwrap();
        assert_ne!(packed, raw);
        assert_eq!(decompress(&packed, c).unwrap(), raw);
    }
    assert_eq!(compress(&raw, Compression::Raw).unwrap(), raw);
}

#[test]
fn garbage_does_not_decompress() {
    assert_eq!(
        decompress(&[1, 2, 3, 4, 5], Compression::Zstd),
        Err(WpakError::DecompressFailed(Compression::Zstd))
    );
}

#[test]
fn short_input_is_too_small() {
    assert_eq!(WpakArchive::from_bytes(vec![0u8; 10]).err(), Some(WpakError::TooSmall));
}

#[test]
fn bad_magic_is_refused() {
    let mut bytes = build_archive_bytes(&[entry("x.bin", &[1], Compression::Raw)]).unwrap();
    bytes[0] = b'X';
    assert_eq!(WpakArchive::from_bytes(bytes).err(), Some(WpakError::BadMagic));
}

#[test]
fn newer_version_is_refused() {
    let mut bytes = build_archive_bytes(&[entry("x.bin", &[1], Compression::Raw)]).unwrap();
    bytes[4] = 9;
    assert_eq!(WpakArchive::from_bytes(bytes).err(), Some(WpakError::VersionTooNew(9)));
}

#[test]
fn guids_are_read_back() {
    let mut a = entry("textures/a.png", &[1, 2], Compression::Raw);
    a.guid = Some(0x1234);
    let b = entry("textures/b.png", &[3], Compression::Lz4);
    let bytes = build_archive_bytes(&[a, b]).unwrap();
    let arc = WpakArchive::from_bytes(bytes).unwrap();
    assert_eq!(arc.resolve_guid("TEXTURES/A.PNG"), Some(0x1234));
    assert_eq!(arc.resolve_guid("textures/b.png"), None);
    assert_eq!(arc.resolve_guid_path(0x1234).as_deref(), Some("textures/a.png"));
    assert_eq!(arc.resolve_guid_path(0x9999), None);
    assert_eq!(arc.all_guids(), vec![(fnv1a("textures/a.png"), 0x1234)]);
    assert_eq!(arc.read("textures/b.png").unwrap(), vec![3]);
}

#[test]
fn normalize_path_strips_drive_prefix() {
    assert_eq!(normalize_path("C:\\Game\\Textures\\A.PNG"), "game/textures/a.png");
    assert_eq!(normalize_path("d:/x.bin"), "x.bin");
    assert_eq!(fnv1a("C:\\Game\\a.png"), fnv1a("game/a.png"));
    assert_eq!(normalize_path("1:/x.bin"), "1:/x.bin");
}

#[test]
fn full_width_guid_is_read_back_unchanged() {
    let g: u128 = 0x0011_2233_4455_6677_8899_aabb_ccdd_eeff;
    let mut a = entry("a.bin", &[1], Compression::Raw);
    a.guid = Some(g);
    let bytes = build_archive_bytes(&[a]).unwrap();
    let arc = WpakArchive::from_bytes(bytes).unwrap();
    assert_eq!(arc.resolve_guid("a.bin"), Some(g));
    assert_eq!(arc.resolve_guid_path(g).as_deref(), Some("a.bin"));
    assert_eq!(arc.all_guids(), vec![(fnv1a("a.bin"), g)]);
}
