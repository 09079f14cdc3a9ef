use zenith::cache::{
    blob_file_name, check_header, check_manifest, check_output, check_payload, container_bytes,
    digest_valid, header_for, manifest_file_name, open_container, seal_blob, unpack_payload,
    Dependency, Header, Manifest, Output,
};
use zenith::error::ErrorKind;
use zenith::path::AssetAddress;

fn output(blob: &str, length: usize) -> Output {
    Output {
        type_key: "zenith.texture".to_owned(),
        schema: 2,
        codec: "bincode-serde-2".to_owned(),
        blob: blob.to_owned(),
        length,
        dependencies: Vec::new(),
    }
}

#[test]
fn digests_are_sixty_four_hex_digits() {
    assert!(digest_valid(&"0f".repeat(32)));
    assert!(digest_valid(&"AB".repeat(32)));
    assert!(!digest_valid(&"0f".repeat(31)));
    assert!(!digest_valid(&format!("{}g", "0".repeat(63))));
    assert!(!digest_valid(""));
}

#[test]
fn containers_frame_a_header_before_the_payload() {
    let bytes = container_bytes(b"{}", &[9, 8]);
    assert_eq!(bytes, b"ZENAS002\x02\x00\x00\x00{}\x09\x08".to_vec());
}

#[test]
fn a_sealed_blob_opens_and_unpacks_to_its_payload() {
    let payload: Vec<u8> = (0..5000u32).map(|i| (i % 251) as u8).collect();
    let header = br#"{"type_key":"t"}"#;
    let sealed = seal_blob(header, &payload).unwrap();
    assert!(digest_valid(&sealed.digest));
    assert_eq!(sealed.digest, blake3::hash(&sealed.container).to_hex().to_string());
    let parts = open_container(&sealed.container, &sealed.digest).unwrap();
    assert_eq!(parts.header, header.to_vec());
    let bytes = unpack_payload(1, &parts.payload, payload.len()).unwrap();
    assert_eq!(bytes, payload);
    assert_eq!(
        unpack_payload(1, &parts.payload, payload.len() - 1).unwrap_err().kind,
        ErrorKind::Cache
    );
    assert_eq!(unpack_payload(0, &[1, 2, 3], 3).unwrap(), vec![1, 2, 3]);
    assert!(unpack_payload(0, &[1, 2, 3], 2).is_err());
    assert_eq!(unpack_payload(2, &[1], 1).unwrap_err().kind, ErrorKind::Cache);
}

#[test]
fn tampered_or_foreign_containers_are_refused() {
    let sealed = seal_blob(b"h", b"data").unwrap();
    let mut tampered = sealed.container.clone();
    tampered[13] ^= 1;
    assert_eq!(open_container(&tampered, &sealed.digest).unwrap_err().kind, ErrorKind::Cache);
    let mut foreign = b"NOTMAGIC".to_vec();
    foreign.extend([0, 0, 0, 0]);
    let digest = blake3::hash(&foreign).to_hex().to_string();
    assert_eq!(open_container(&foreign, &digest).unwrap_err().kind, ErrorKind::Cache);
    let mut large = b"ZENAS002".to_vec();
    large.extend(16385u32.to_le_bytes());
    let digest = blake3::hash(&large).to_hex().to_string();
    assert_eq!(open_container(&large, &digest).unwrap_err().kind, ErrorKind::Cache);
    let mut short = b"ZENAS002".to_vec();
    short.extend(4u32.to_le_bytes());
    short.extend(b"ab");
    let digest = blake3::hash(&short).to_hex().to_string();
    assert_eq!(open_container(&short, &digest).unwrap_err().kind, ErrorKind::Io);
}

#[test]
fn headers_and_outputs_are_checked_against_the_manifest() {
    let good = output(&"a".repeat(64), 10);
    assert!(check_output(&good).is_ok());
    assert!(check_output(&output("bad", 10)).is_err());
    let header = header_for(&good, 10);
    assert_eq!(header.compression, 1);
    assert!(check_header(&header, &good).is_ok());
    let other = Header { schema: 3, ..header };
    assert_eq!(check_header(&other, &good).unwrap_err().kind, ErrorKind::Cache);
    assert!(check_payload(&good, &[0; 10]).is_ok());
    assert!(check_payload(&good, &[0; 9]).is_err());
}

#[test]
fn manifests_must_match_the_address_they_are_read_for() {
    let address = AssetAddress::parse("scene.gltf#meshes/0").unwrap();
    let digest = "c".repeat(64);
    let manifest = Manifest {
        format: 2,
        source: address.root(),
        importer: "zenith.gltf".to_owned(),
        importer_version: 3,
        settings: "{}".to_owned(),
        target: "desktop".to_owned(),
        inputs: vec![(AssetAddress::parse("scene.gltf").unwrap(), digest.clone())],
        outputs: vec![
            (String::new(), output(&digest, 4)),
            (
                "meshes/0".to_owned(),
                Output {
                    dependencies: vec![Dependency {
                        address: AssetAddress::parse("x.tex").unwrap(),
                        type_key: "zenith.texture".to_owned(),
                    }],
                    ..output(&digest, 4)
                },
            ),
        ],
    };
    assert!(check_manifest(&manifest, &address).is_ok());
    let stale = Manifest { format: 1, ..manifest };
    assert_eq!(check_manifest(&stale, &address).unwrap_err().kind, ErrorKind::Cache);
    let other = AssetAddress::parse("other.gltf").unwrap();
    let fresh = Manifest { format: 2, ..stale };
    assert!(check_manifest(&fresh, &other).is_err());
    let bad_label = Manifest {
        outputs: vec![("../x".to_owned(), output(&digest, 4))],
        ..fresh
    };
    assert_eq!(check_manifest(&bad_label, &address).unwrap_err().kind, ErrorKind::InvalidPath);
}

#[test]
fn files_are_named_by_digest() {
    let name = manifest_file_name(b"key");
    assert_eq!(name, format!("{}.json", blake3::hash(b"key").to_hex()));
    assert_eq!(blob_file_name("ab"), "ab.bin");
}

#[test]
fn short_or_foreign_containers_fail_as_a_reader_would() {
    let name = |bytes: &[u8]| blake3::hash(bytes).to_hex().to_string();
    let foreign = b"NOTZENAS00".to_vec();
    assert_eq!(open_container(&foreign, &name(&foreign)).unwrap_err().kind, ErrorKind::Cache);
    let short = b"ZENAS002\x01".to_vec();
    assert_eq!(open_container(&short, &name(&short)).unwrap_err().kind, ErrorKind::Io);
    let tiny = b"ZEN".to_vec();
    assert_eq!(open_container(&tiny, &name(&tiny)).unwrap_err().kind, ErrorKind::Io);
    let huge = b"ZENAS002\xff\xff\x00\x00".to_vec();
    assert_eq!(open_container(&huge, &name(&huge)).unwrap_err().kind, ErrorKind::Cache);
    let cut = b"ZENAS002\x05\x00\x00\x00ab".to_vec();
    assert_eq!(open_container(&cut, &name(&cut)).unwrap_err().kind, ErrorKind::Io);
    let sealed = seal_blob(b"h", b"data").unwrap();
    assert!(sealed.digest.chars().all(|c| c.is_ascii_digit() || ('a'..='f').contains(&c)));
    assert_eq!(sealed.digest.len(), 64);
}
