use zenith::error::ErrorKind;
use zenith::engine::{
    begin_frame, capture_next_frame, capture_pending, complete_startup, end_frame, is_recording,
    startup_needs_completion, startup_presented, EngineArgs, FrameCapturer, LogLevel,
    StartupState,
};
use zenith::legacy::{
    cache_version_text, extension_asset_type, extension_raw_asset_type, initialize, join_paths,
    pack_baked, trim_chars, unpack_baked, version_dirty, AssetHandle,
    AssetLoadRequest, AssetRegistry, AssetRequestor, AssetType, AssetUrl, EngineDirectory,
    RawAssetType,
};

#[derive(Debug)]
struct MeshAsset;

#[test]
fn urls_know_their_asset_type_by_extension() {
    assert_eq!(AssetUrl::new("mesh/cerberus/scene.MESH").asset_type(), AssetType::Mesh);
    assert_eq!(AssetUrl::new("a/b.tex").asset_type(), AssetType::Texture);
    assert_eq!(AssetUrl::new("a/b.scene/").asset_type(), AssetType::Scene);
    assert_eq!(AssetType::Material.extension(), "mat");
    assert_eq!(extension_asset_type("scene"), AssetType::Scene);
    assert_eq!(extension_raw_asset_type("hdr"), RawAssetType::Hdr);
    assert_eq!(AssetUrl::invalid().path, "");
    assert_eq!(AssetUrl::default(), AssetUrl::invalid());
}

#[test]
fn paths_join_under_the_workspace() {
    assert_eq!(join_paths("/w", "asset"), "/w/asset");
    assert_eq!(join_paths("/w/", "asset"), "/w/asset");
    assert_eq!(join_paths("/w", "/abs"), "/abs");
    assert_eq!(
        AssetUrl::new("mesh/a.mesh").absolute_path("/w"),
        "/w/asset/mesh/a.mesh"
    );
    let request = AssetLoadRequest::new(AssetUrl::new("mesh/a.scene")).with_source("mesh/a.GLTF");
    assert_eq!(request.raw_asset_type(), RawAssetType::Gltf);
    assert_eq!(request.asset_type(), AssetType::Scene);
    assert_eq!(request.absolute_raw_asset_path("/w"), "/w/content/mesh/a.GLTF");
    assert_eq!(request.absolute_asset_path("/w"), "/w/asset/mesh/a.scene");
    assert_eq!(request.raw_asset_path().unwrap(), "mesh/a.GLTF");
    assert_eq!(EngineDirectory::Content.folder_name(), "content");
    assert_eq!(AssetRequestor::new("/w").asset_dir, "/w/asset/");
}

#[test]
fn baking_follows_source_freshness() {
    assert!(!AssetRequestor::should_bake(false, true, false, None, None));
    assert!(AssetRequestor::should_bake(true, true, true, Some(5), Some(1)));
    assert!(AssetRequestor::should_bake(true, false, false, None, None));
    assert!(AssetRequestor::should_bake(true, false, true, Some(1), Some(2)));
    assert!(!AssetRequestor::should_bake(true, false, true, Some(2), Some(2)));
    assert!(!AssetRequestor::should_bake(true, false, true, None, Some(2)));
}

#[test]
fn the_registry_finds_assets_by_url_and_type() {
    let mut slot = None;
    assert!(initialize(&mut slot).is_ok());
    assert!(initialize(&mut slot).is_err());
    let mut registry = AssetRegistry::new();
    let url = AssetUrl::new("m/a.mesh");
    registry.register(&url, 1, 100);
    registry.register(&url, 2, 200);
    registry.register(&url, 1, 101);
    assert_eq!(registry.get(&url, 1), Some(101));
    assert_eq!(registry.get(&url, 2), Some(200));
    let handle: AssetHandle<MeshAsset> = AssetHandle::new(url.clone());
    assert_eq!(handle.url(), &url);
    assert_eq!(handle.get(&registry, 1, AssetType::Mesh).map(|a| a.token), Some(101));
    assert!(handle.get(&registry, 1, AssetType::Texture).is_none());
    assert!(registry.unregister(&url, 1));
    assert!(!registry.unregister(&url, 1));
    assert_eq!(registry.get(&url, 1), None);
    assert_eq!(registry.get(&url, 2), Some(200));
    assert_eq!(AssetHandle::<MeshAsset>::null().url().path, "");
}

#[test]
fn a_null_handle_points_to_nothing() {
    let mut slot = None;
    assert!(initialize(&mut slot).is_ok());
    let mut registry = AssetRegistry::new();
    registry.register(&AssetUrl::new(""), 1, 7);
    let handle = AssetHandle::<MeshAsset>::null();
    assert!(handle.get(&registry, 1, AssetType::Mesh).is_none());
    let default = AssetHandle::<MeshAsset>::default();
    assert_eq!(default.url().path, "");
    assert!(default.get(&registry, 1, AssetType::Mesh).is_none());
}

#[test]
fn startup_profiles_complete_once() {
    let mut startup = StartupState::new();
    assert!(!startup_needs_completion(&startup));
    assert_eq!(complete_startup(&mut startup), None);
    startup_presented(&mut startup, 40);
    startup_presented(&mut startup, 90);
    assert_eq!(startup.presented, Some(40));
    assert!(startup_needs_completion(&startup));
    assert_eq!(complete_startup(&mut startup), Some(40));
    assert!(!startup_needs_completion(&startup));
    startup_presented(&mut startup, 120);
    assert_eq!(startup.presented, Some(40));
}

#[test]
fn frames_are_captured_only_on_request() {
    let mut capturer = FrameCapturer::new();
    assert!(begin_frame(&mut capturer).is_none());
    for _ in 0..2 {
        capture_next_frame(&mut capturer);
        assert!(capture_pending(&capturer));
        let frame = begin_frame(&mut capturer).unwrap();
        assert!(is_recording(&capturer));
        assert!(begin_frame(&mut capturer).is_none());
        capture_next_frame(&mut capturer);
        end_frame(&mut capturer, frame);
        assert!(!capture_pending(&capturer));
        assert!(begin_frame(&mut capturer).is_none());
    }
    assert!(!capture_pending(&capturer) && !is_recording(&capturer));
    assert_eq!(LogLevel::default(), LogLevel::Info);
    assert_eq!(EngineArgs::defaults().log_level, LogLevel::Info);
}

#[test]
fn baked_files_frame_compressed_assets() {
    let encoded = vec![7u8; 300];
    let packed = pack_baked(&encoded).unwrap();
    assert_eq!(&packed[..5], b"ZSTD1");
    assert_eq!(&packed[5..41], b"7f9c2e2f-9b9b-4c51-9b65-2f7a6c3e0b2d");
    assert_ne!(&packed[41..], &encoded[..]);
    assert_eq!(unpack_baked(&packed).unwrap(), encoded);
    let mut wrong = packed.clone();
    wrong[0] = b'X';
    assert_eq!(unpack_baked(&wrong).unwrap_err().kind, ErrorKind::InvalidData);
    assert_eq!(unpack_baked(b"ZSTD1").unwrap_err().kind, ErrorKind::InvalidData);
    let mut garbage = packed[..41].to_vec();
    garbage.extend_from_slice(&[1, 2, 3]);
    assert_eq!(unpack_baked(&garbage).unwrap_err().kind, ErrorKind::Io);
}

#[test]
fn cache_versions_compare_without_surrounding_white_space() {
    let version = cache_version_text();
    assert_eq!(version, "18797930-6c96-4c99-8b8d-dd74b85299a3");
    assert!(!version_dirty(Some(version)));
    assert!(!version_dirty(Some(&format!("  {version}\n"))));
    assert!(!version_dirty(None));
    assert!(version_dirty(Some("00000000-0000-0000-0000-000000000000")));
    assert!(version_dirty(Some("")));
    assert_eq!(trim_chars("\u{3000}\t a b \u{85}").into_iter().collect::<String>(), "a b");
    assert_eq!(trim_chars(" \n ").len(), 0);
}
