use zenith::cache::{Manifest, Output};
use zenith::error::{AssetError, ErrorKind};
use zenith::handle::{AssetId, Revision};
use zenith::path::AssetAddress;
use zenith::server::{
    check_cached_outputs, check_target, check_import_record, check_input, source_fingerprint, check_reload, check_resolve, check_root_input,
    choose_importer, cycle_message, extension_of, needs_refresh, output_removed, output_stamp,
    plan_bundle, select_importer, select_output, variant_digest, AssetEvent, BundleSource,
    CacheLookup, EventQueue, ImporterInfo, Registry, SelectionSource, TypeInfo, MAX_EVENTS,
};

fn address(text: &str) -> AssetAddress {
    AssetAddress::parse(text).unwrap()
}

fn ready(slot: u64) -> AssetEvent {
    AssetEvent::Ready {
        id: AssetId { server: 1, slot },
        address: address("a.tex"),
        revision: Revision(1),
    }
}

fn slot_of(event: &AssetEvent) -> u64 {
    match event {
        AssetEvent::Ready { id, .. } => id.slot,
        AssetEvent::Failed { id, .. } => id.slot,
    }
}

#[test]
fn the_event_queue_drops_the_oldest_when_full() {
    let mut queue = EventQueue::new();
    for i in 0..(MAX_EVENTS as u64 + 5) {
        queue.push(ready(i));
    }
    assert_eq!(queue.len(), MAX_EVENTS);
    queue.push(AssetEvent::Failed {
        id: AssetId { server: 1, slot: 9999 },
        address: address("b.tex"),
        error: AssetError::new(ErrorKind::Import, "x"),
    });
    let events = queue.drain();
    assert_eq!(events.len(), MAX_EVENTS);
    assert_eq!(slot_of(&events[0]), 6);
    assert_eq!(slot_of(&events[MAX_EVENTS - 1]), 9999);
    assert_eq!(queue.len(), 0);
}

#[test]
fn cycles_and_deep_chains_are_refused_with_their_chain() {
    let stack = vec![
        (address("a.scene"), "zenith.scene".to_owned()),
        (address("b.mat"), "zenith.material".to_owned()),
    ];
    let err = check_resolve(&stack, &address("a.scene"), "zenith.scene").unwrap_err();
    assert_eq!(err.kind, ErrorKind::DependencyCycle);
    assert_eq!(
        err.message,
        "default://a.scene -> default://b.mat -> default://a.scene"
    );
    assert!(check_resolve(&stack, &address("a.scene"), "zenith.mesh").is_ok());
    let deep: Vec<_> = (0..128)
        .map(|i| (address(&format!("n{i}.mesh")), "zenith.mesh".to_owned()))
        .collect();
    assert_eq!(
        check_resolve(&deep, &address("leaf.mesh"), "zenith.mesh").unwrap_err().kind,
        ErrorKind::DependencyCycle
    );
    assert_eq!(cycle_message(&vec![], &address("x.mesh")), "default://x.mesh");
}

fn output(type_key: &str, length: usize) -> Output {
    Output {
        type_key: type_key.to_owned(),
        schema: 2,
        codec: "bincode-serde-2".to_owned(),
        blob: "a".repeat(64),
        length,
        dependencies: Vec::new(),
    }
}

#[test]
fn outputs_are_found_by_label_and_type() {
    let outputs = vec![
        (String::new(), output("zenith.scene", 1)),
        ("meshes/0".to_owned(), output("zenith.mesh", 1)),
    ];
    assert_eq!(select_output(&outputs, &address("s.gltf"), "zenith.scene").unwrap(), 0);
    assert_eq!(
        select_output(&outputs, &address("s.gltf#meshes/0"), "zenith.mesh").unwrap(),
        1
    );
    let wrong = select_output(&outputs, &address("s.gltf#meshes/0"), "zenith.scene").unwrap_err();
    assert_eq!(wrong.kind, ErrorKind::TypeMismatch);
    assert_eq!(
        wrong.message,
        "default://s.gltf#meshes/0: expected zenith.scene, found zenith.mesh"
    );
    assert_eq!(
        select_output(&outputs, &address("s.gltf#meshes/1"), "zenith.mesh").unwrap_err().kind,
        ErrorKind::MissingAsset
    );
}

#[test]
fn stamps_and_variants_are_digests_of_their_inputs() {
    let stamp = output_stamp("zenith.mesh", &[1, 2], &vec!["ab".to_owned(), "cd".to_owned()]);
    let mut input = b"zenith.mesh".to_vec();
    input.extend([1, 2]);
    input.extend(b"abcd");
    assert_eq!(stamp, blake3::hash(&input).to_hex().to_string());
    assert_ne!(stamp, output_stamp("zenith.mesh", &[1, 2], &vec![]));
    let variant = variant_digest("zenith.image", b"{}");
    assert_eq!(variant, blake3::hash(b"zenith.image{}").to_hex().to_string());
    let mut a = address("a.png");
    a.set_variant(variant);
    assert_eq!(a.variant().len(), 64);
}

fn image_importer() -> ImporterInfo {
    ImporterInfo {
        key: "zenith.image".to_owned(),
        version: 2,
        extensions: vec!["png".to_owned(), "jpg".to_owned()],
        output: "zenith.texture".to_owned(),
    }
}

#[test]
fn registration_refuses_duplicates_and_bad_names() {
    let mut registry = Registry::new();
    registry.mount("default");
    registry.mount("pack");
    assert!(registry.error.is_none());
    registry.register_type(TypeInfo {
        key: "zenith.texture".to_owned(),
        type_token: 1,
        schema: 2,
        codec: "bincode-serde-2".to_owned(),
    });
    registry.register_importer(image_importer());
    assert!(registry.check_build().is_ok());
    registry.mount("pack");
    assert_eq!(registry.check_build().unwrap_err().kind, ErrorKind::Registration);
    let mut bad = Registry::new();
    bad.mount("bad name");
    assert_eq!(bad.sources.len(), 0);
    assert!(bad.error.is_some());
    let mut dup = Registry::new();
    dup.register_type(TypeInfo {
        key: "t".to_owned(),
        type_token: 1,
        schema: 1,
        codec: "c".to_owned(),
    });
    dup.register_type(TypeInfo {
        key: "u".to_owned(),
        type_token: 1,
        schema: 1,
        codec: "c".to_owned(),
    });
    assert_eq!(dup.types.len(), 1);
    assert!(dup.error.is_some());
    let mut ext = Registry::new();
    ext.register_importer(image_importer());
    ext.register_importer(ImporterInfo {
        key: "other".to_owned(),
        version: 1,
        extensions: vec!["PNG".to_owned(), "jpg".to_owned()],
        output: "zenith.texture".to_owned(),
    });
    assert_eq!(ext.importers.len(), 2);
    assert!(ext.error.is_some());
    let mut orphan = Registry::new();
    orphan.register_importer(image_importer());
    assert_eq!(
        orphan.check_build().unwrap_err().message,
        "unregistered importer output: zenith.texture"
    );
    let mut packaged = Registry::new();
    packaged.packaged = true;
    assert!(packaged.check_build().is_err());
    let mut two = Registry::new();
    two.register_importer(ImporterInfo {
        key: "zeta".to_owned(),
        version: 1,
        extensions: vec!["z".to_owned()],
        output: "zenith.z".to_owned(),
    });
    two.register_importer(ImporterInfo {
        key: "alpha".to_owned(),
        version: 1,
        extensions: vec!["a".to_owned()],
        output: "zenith.a".to_owned(),
    });
    assert_eq!(
        two.check_build().unwrap_err().message,
        "unregistered importer output: zenith.a"
    );
}

#[test]
fn importers_are_chosen_by_lower_case_extension() {
    let importers = vec![image_importer()];
    assert_eq!(choose_importer(&importers, "textures/a.PNG"), Some(0));
    assert_eq!(choose_importer(&importers, "textures/a.jpg"), Some(0));
    assert_eq!(choose_importer(&importers, "textures/a.gif"), None);
    assert_eq!(choose_importer(&importers, "textures/.png"), None);
    assert_eq!(extension_of("a/b.c/d.TGA"), vec!['T', 'G', 'A']);
    assert_eq!(extension_of("a/b.c/d"), Vec::<char>::new());
}

#[test]
fn cached_bundles_must_fit_the_server() {
    let mut registry = Registry::new();
    registry.register_type(TypeInfo {
        key: "zenith.texture".to_owned(),
        type_token: 1,
        schema: 2,
        codec: "bincode-serde-2".to_owned(),
    });
    let manifest = Manifest {
        format: 2,
        source: address("a.png"),
        importer: "zenith.image".to_owned(),
        importer_version: 2,
        settings: "{}".to_owned(),
        target: "desktop".to_owned(),
        inputs: vec![],
        outputs: vec![(String::new(), output("zenith.texture", 16))],
    };
    assert!(check_cached_outputs(&manifest, &registry).is_ok());
    assert!(check_target(&manifest, &registry).is_ok());
    let mobile = Manifest { target: "mobile".to_owned(), ..manifest };
    let refused = check_target(&mobile, &registry).unwrap_err();
    assert_eq!(refused.kind, ErrorKind::Cache);
    assert_eq!(refused.message, "asset target profile changed");
    assert_eq!(check_cached_outputs(&mobile, &registry).unwrap_err().kind, ErrorKind::Cache);
    let changed = Manifest {
        target: "desktop".to_owned(),
        outputs: vec![(String::new(), Output { schema: 3, ..output("zenith.texture", 1) })],
        ..mobile
    };
    assert_eq!(check_cached_outputs(&changed, &registry).unwrap_err().kind, ErrorKind::Cache);
    let unknown = Manifest {
        outputs: vec![(String::new(), output("zenith.mesh", 1))],
        ..changed
    };
    assert_eq!(
        check_cached_outputs(&unknown, &registry).unwrap_err().kind,
        ErrorKind::Registration
    );
}

#[test]
fn bundles_come_from_the_cache_or_a_fresh_import() {
    let a = address("a.png");
    assert_eq!(plan_bundle(CacheLookup::Read(Ok(())), false, &a).unwrap(), BundleSource::Cached);
    assert_eq!(plan_bundle(CacheLookup::Read(Ok(())), true, &a).unwrap(), BundleSource::Cached);
    let stale = CacheLookup::Read(Err(AssetError::new(ErrorKind::Cache, "stale")));
    assert_eq!(plan_bundle(stale, false, &a).unwrap(), BundleSource::Import);
    assert_eq!(plan_bundle(CacheLookup::Disabled, false, &a).unwrap(), BundleSource::Import);
    let missing = plan_bundle(CacheLookup::Disabled, true, &a).unwrap_err();
    assert_eq!(missing.kind, ErrorKind::Cache);
    assert_eq!(missing.describe(), "default://a.png: missing packaged cache");
    let unreadable = CacheLookup::ManifestFailed(AssetError::new(ErrorKind::Io, "gone"));
    assert_eq!(plan_bundle(unreadable, true, &a).unwrap_err().kind, ErrorKind::Io);
    let corrupt = CacheLookup::Read(Err(AssetError::new(ErrorKind::InvalidData, "bad")));
    let err = plan_bundle(corrupt, true, &a).unwrap_err();
    assert_eq!(err.kind, ErrorKind::InvalidData);
    assert_eq!(err.describe(), "packaged asset default://a.png: bad");
}

#[test]
fn importers_are_selected_explicitly_by_record_or_by_extension() {
    let importers = vec![image_importer()];
    let plain = address("a.png");
    let mut variant = address("a.png");
    variant.set_variant("0123456789abcdef".repeat(4));
    assert_eq!(select_importer(true, &variant, false, &importers).unwrap(), SelectionSource::Explicit);
    assert_eq!(select_importer(false, &variant, true, &importers).unwrap(), SelectionSource::Recorded);
    let err = select_importer(false, &variant, false, &importers).unwrap_err();
    assert_eq!(err.kind, ErrorKind::Cache);
    assert_eq!(
        select_importer(false, &plain, false, &importers).unwrap(),
        SelectionSource::ByExtension(0)
    );
    let gif = address("a.gif");
    let err = select_importer(false, &gif, false, &importers).unwrap_err();
    assert_eq!(err.kind, ErrorKind::UnsupportedImporter);
    assert_eq!(err.message, "no importer for default://a.gif");
}

fn manifest_for(source: &str) -> Manifest {
    Manifest {
        format: 2,
        source: address(source),
        importer: "zenith.image".to_owned(),
        importer_version: 2,
        settings: "{}".to_owned(),
        target: "desktop".to_owned(),
        inputs: vec![],
        outputs: vec![],
    }
}

#[test]
fn cached_records_must_match_the_importer_and_its_settings() {
    let manifest = manifest_for("a.png");
    let importer = image_importer();
    assert!(check_import_record(&manifest, &importer, b"{}", b"{}").is_ok());
    let err = check_import_record(&manifest, &importer, b"{}", b"{\"srgb\":true}").unwrap_err();
    assert_eq!(err.kind, ErrorKind::Cache);
    let newer = ImporterInfo { version: 3, ..image_importer() };
    assert!(check_import_record(&manifest, &newer, b"{}", b"{}").is_err());
    let other = ImporterInfo { key: "zenith.hdr".to_owned(), ..image_importer() };
    assert!(check_import_record(&manifest, &other, b"{}", b"{}").is_err());
}

#[test]
fn manifests_fingerprint_their_root_source() {
    let mut manifest = manifest_for("a.gltf");
    assert_eq!(check_root_input(&manifest).unwrap_err().kind, ErrorKind::Cache);
    manifest.inputs.push((address("a.bin"), "00".to_owned()));
    assert!(check_root_input(&manifest).is_err());
    manifest.inputs.push((address("a.gltf"), "11".to_owned()));
    assert!(check_root_input(&manifest).is_ok());
    let labelled = Manifest { source: address("a.gltf#mesh0"), ..manifest };
    assert!(check_root_input(&labelled).is_ok());
}

#[test]
fn watched_roots_refresh_when_an_input_changes() {
    let inputs = vec![(address("a.png"), "aa".to_owned()), (address("b.png"), "bb".to_owned())];
    let same = vec![Some("aa".to_owned()), Some("bb".to_owned())];
    assert!(!needs_refresh(Some(&inputs), &same, true, false));
    assert!(needs_refresh(Some(&inputs), &same, false, false));
    assert!(needs_refresh(Some(&inputs), &same, true, true));
    assert!(needs_refresh(None, &vec![], true, false));
    let edited = vec![Some("aa".to_owned()), Some("cc".to_owned())];
    assert!(needs_refresh(Some(&inputs), &edited, true, false));
    let removed = vec![None, Some("bb".to_owned())];
    assert!(needs_refresh(Some(&inputs), &removed, true, false));
}

#[test]
fn outputs_missing_from_a_fresh_import_are_removed() {
    let outputs = vec![(String::new(), output("zenith.scene", 1)), ("mesh0".to_owned(), output("zenith.mesh", 1))];
    assert!(!output_removed(true, &outputs, &address("a.gltf")));
    assert!(!output_removed(true, &outputs, &address("a.gltf#mesh0")));
    assert!(output_removed(true, &outputs, &address("a.gltf#mesh1")));
    assert!(!output_removed(false, &outputs, &address("a.gltf#mesh1")));
}

#[test]
fn reloads_need_a_registered_sourced_asset_of_this_server() {
    let id = AssetId { server: 7, slot: 1 };
    assert!(check_reload(7, id, true, true).is_ok());
    assert_eq!(check_reload(8, id, true, true).unwrap_err().kind, ErrorKind::InvalidPath);
    assert_eq!(check_reload(7, id, false, true).unwrap_err().kind, ErrorKind::Registration);
    let err = check_reload(7, id, true, false).unwrap_err();
    assert_eq!(err.kind, ErrorKind::InvalidPath);
    assert_eq!(err.message, "generated assets have no source to reload");
}

#[test]
fn recorded_inputs_must_still_match_their_sources() {
    let digest = source_fingerprint(b"texture bytes");
    assert_eq!(digest.len(), 64);
    assert!(digest.chars().all(|c| c.is_ascii_hexdigit()));
    assert_eq!(digest, source_fingerprint(b"texture bytes"));
    assert_ne!(digest, source_fingerprint(b"texture bytes!"));
    let a = address("a.png");
    assert!(check_input(&a, &digest, b"texture bytes").is_ok());
    let err = check_input(&a, &digest, b"edited").unwrap_err();
    assert_eq!(err.kind, ErrorKind::Cache);
    assert_eq!(err.message, "source changed: default://a.png");
}
