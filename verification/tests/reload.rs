use zenith::cache::Output;
use zenith::error::ErrorKind;
use zenith::gltf::check_implicit_indices;
use zenith::handle::AssetId;
use zenith::image::pad_surface;
use zenith::mesh::{check_document, check_normal_count, check_roots, check_tangent_count, SourceNode};
use zenith::path::AssetAddress;
use zenith::reload::{
    changed_parent, changed_slots, next_unstaged, reload_step, FinishAction, FinishEvent, FinishState,
};

fn output(type_key: &str) -> Output {
    Output {
        type_key: type_key.to_owned(),
        schema: 1,
        codec: "c".to_owned(),
        blob: String::new(),
        length: 0,
        dependencies: Vec::new(),
    }
}

fn addr(s: &str) -> AssetAddress {
    AssetAddress::parse(s).unwrap()
}

fn key(s: &str, t: &str) -> (AssetAddress, String) {
    (addr(s), t.to_owned())
}

#[test]
fn unstaged_outputs_come_in_bundle_then_output_order() {
    let bundles = vec![
        (addr("cached.gltf"), false, vec![(String::new(), output("scene"))]),
        (
            addr("model.gltf"),
            true,
            vec![(String::new(), output("scene")), ("meshes/0".to_owned(), output("mesh"))],
        ),
    ];
    let first = next_unstaged(&bundles, &vec![]).unwrap().unwrap();
    assert_eq!(first.0.describe(), addr("model.gltf").describe());
    assert_eq!(first.1, "scene");
    let second = next_unstaged(&bundles, &vec![key("model.gltf", "scene")]).unwrap().unwrap();
    assert_eq!(second.0.describe(), addr("model.gltf#meshes/0").describe());
    assert_eq!(second.1, "mesh");
    let all = vec![key("model.gltf", "scene"), key("model.gltf#meshes/0", "mesh")];
    assert!(next_unstaged(&bundles, &all).unwrap().is_none());
    let broken = vec![(addr("bad.gltf"), true, vec![("../up".to_owned(), output("mesh"))])];
    assert_eq!(next_unstaged(&broken, &vec![]).unwrap_err().kind, ErrorKind::InvalidPath);
}

#[test]
fn the_first_unstaged_slot_with_a_changed_dependency_is_reloaded() {
    let a = AssetId { server: 1, slot: 1 };
    let b = AssetId { server: 1, slot: 2 };
    let changed = changed_slots(&vec![
        (a, Some("old".to_owned()), "new".to_owned()),
        (b, Some("same".to_owned()), "same".to_owned()),
    ]);
    assert_eq!(changed, vec![a]);
    let slots = vec![
        (key("leaf.node", "node"), vec![]),
        (key("mid.node", "node"), vec![b]),
        (key("root.node", "node"), vec![a]),
        (key("other.node", "node"), vec![a]),
    ];
    let parent = changed_parent(&changed, &slots, &vec![]).unwrap();
    assert_eq!(parent.0.describe(), addr("root.node").describe());
    let next = changed_parent(&changed, &slots, &vec![key("root.node", "node")]).unwrap();
    assert_eq!(next.0.describe(), addr("other.node").describe());
    assert!(changed_parent(&vec![], &slots, &vec![]).is_none());
    assert_eq!(changed_slots(&vec![(b, None, "s".to_owned())]), vec![b]);
}

#[test]
fn finishing_resolves_unstaged_then_reloads_parents_then_publishes() {
    let start = FinishState { reload: false, failed: false };
    let (s, a) = reload_step(start, FinishEvent::Unstaged(Some(key("a.node", "node"))));
    assert_eq!(s, start);
    assert!(matches!(a, FinishAction::Resolve(_)));
    let (s, a) = reload_step(s, FinishEvent::Unstaged(None));
    assert_eq!(s, start);
    assert!(matches!(a, FinishAction::FindChangedParent));
    let (s, a) = reload_step(s, FinishEvent::ChangedParent(Some(key("b.node", "node"))));
    assert!(s.reload);
    assert!(matches!(a, FinishAction::Resolve(_)));
    let (s, a) = reload_step(s, FinishEvent::ChangedParent(None));
    assert!(s.reload);
    assert!(matches!(a, FinishAction::Publish));
}

#[test]
fn a_failed_step_rolls_back_and_never_publishes() {
    let start = FinishState { reload: false, failed: false };
    let (s, a) = reload_step(start, FinishEvent::Failed);
    assert!(s.failed);
    assert!(matches!(a, FinishAction::RollBack));
    let (s, a) = reload_step(s, FinishEvent::ChangedParent(None));
    assert!(s.failed);
    assert!(matches!(a, FinishAction::RollBack));
    let (_, a) = reload_step(s, FinishEvent::Unstaged(Some(key("a.node", "node"))));
    assert!(matches!(a, FinishAction::RollBack));
}

#[test]
fn document_checks_refuse_what_a_layout_cannot_place() {
    let doc = vec![SourceNode { children: vec![1], mesh: None }, SourceNode { children: vec![], mesh: None }];
    assert!(check_document(&doc).is_ok());
    let bad = vec![SourceNode { children: vec![2], mesh: None }];
    let e = check_document(&bad).unwrap_err();
    assert_eq!(e.kind, ErrorKind::Import);
    assert_eq!(e.message, "glTF node has an invalid child");
    assert!(check_roots(2, &vec![0, 1]).is_ok());
    assert_eq!(check_roots(2, &vec![2]).unwrap_err().message, "glTF scene has an invalid root node");
    assert!(check_tangent_count(3, 3).is_ok());
    assert_eq!(check_tangent_count(3, 2).unwrap_err().message, "glTF tangent count mismatch");
    assert!(check_normal_count(3, 3).is_ok());
    assert_eq!(check_normal_count(3, 4).unwrap_err().message, "glTF normal count mismatch");
    assert!(check_implicit_indices(false, 3).is_ok());
    assert!(check_implicit_indices(true, usize::MAX).is_ok());
    if usize::BITS > 32 {
        let e = check_implicit_indices(false, 1usize << 32).unwrap_err();
        assert_eq!(e.message, "glTF vertex/index range mismatch");
    }
}

#[test]
fn padding_takes_any_stride_and_whole_surfaces_as_they_are() {
    let bytes: Vec<u8> = (0..5 * 20).map(|i| i as u8).collect();
    let (padded, w, h) = pad_surface(&bytes, 5, 1, 20);
    assert_eq!((w, h), (8, 4));
    assert_eq!(padded.len(), 8 * 4 * 20);
    assert_eq!(&padded[0..20], &bytes[0..20]);
    assert_eq!(&padded[7 * 20..8 * 20], &bytes[4 * 20..5 * 20]);
    assert_eq!(&padded[3 * 8 * 20..3 * 8 * 20 + 20], &bytes[0..20]);
    let short = vec![1u8, 2, 3];
    let (same, w, h) = pad_surface(&short, 4, 4, 2);
    assert_eq!((same, w, h), (short.clone(), 4, 4));
    let (empty, w, h) = pad_surface(&[], 0, 0, 3);
    assert_eq!((empty.len(), w, h), (0, 0, 0));
}
