use zenith::error::ErrorKind;
use zenith::gltf::{
    decode_uri, image_label, material_label, mesh_indices, mesh_label, scene_label, GltfImporter,
    GltfSettings, PrimitiveMode,
};
use zenith::image::{
    check_image_size, compress_blocks, hdr_face_size, hdr_format, mip_count, pad_surface, select_format,
    srgb_input, HdrImporter, HdrSettings, ImageImporter, SampleDepth,
};
use zenith::import::{relative_source_path, AssetSource, FileSource, ImportRecord, MemorySource};
use zenith::mesh::{check_scene, check_triangles, layout_scene, SourceMesh, SourceNode};
use zenith::path::AssetAddress;
use zenith::server::{Registry, TypeInfo};
use zenith::texture::{TextureCompression, TextureFormat, TextureSettings, TextureUsage};

#[test]
fn labels_name_meshes_images_materials_and_scenes() {
    assert_eq!(mesh_label(3, 12), "meshes/3/primitives/12");
    assert_eq!(image_label(0, TextureUsage::Normal), "images/0/normal");
    assert_eq!(material_label(Some(41)), "materials/41");
    assert_eq!(material_label(None), "materials/default");
    assert_eq!(scene_label(7), "scenes/7");
}

#[test]
fn uris_decode_percent_escapes() {
    assert_eq!(decode_uri("a%20b%2Fc.bin").unwrap(), "a b/c.bin");
    assert_eq!(decode_uri("%e2%82%ac").unwrap(), "\u{20ac}");
    assert_eq!(decode_uri("bad%2").unwrap_err().kind, ErrorKind::Import);
    assert_eq!(decode_uri("bad%zz").unwrap_err().kind, ErrorKind::Import);
    assert_eq!(decode_uri("%ff").unwrap_err().kind, ErrorKind::InvalidPath);
}

#[test]
fn primitives_become_triangle_lists() {
    assert_eq!(
        mesh_indices(PrimitiveMode::TriangleStrip, Some(vec![0, 1, 2, 3]), 4, 4).unwrap(),
        vec![0, 1, 2, 2, 1, 3]
    );
    assert_eq!(
        mesh_indices(PrimitiveMode::TriangleFan, Some(vec![0, 1, 2, 3]), 4, 4).unwrap(),
        vec![0, 1, 2, 0, 2, 3]
    );
    assert_eq!(mesh_indices(PrimitiveMode::Triangles, None, 3, 3).unwrap(), vec![0, 1, 2]);
    assert!(mesh_indices(PrimitiveMode::Triangles, Some(vec![0, 1]), 3, 3).is_err());
    assert!(mesh_indices(PrimitiveMode::Lines, Some(vec![0, 1, 2]), 3, 3).is_err());
    assert!(mesh_indices(PrimitiveMode::Triangles, Some(vec![0, 1, 3]), 3, 3).is_err());
    assert!(mesh_indices(PrimitiveMode::Triangles, Some(vec![0, 1, 2]), 3, 2).is_err());
    assert!(mesh_indices(PrimitiveMode::TriangleStrip, Some(vec![0, 1]), 3, 3).is_err());
}

#[test]
fn meshes_need_whole_triangles_over_their_vertices() {
    assert!(check_triangles(3, &vec![0, 1, 2]).is_ok());
    assert_eq!(check_triangles(3, &vec![0, 1, 3]).unwrap_err().kind, ErrorKind::InvalidData);
    assert!(check_triangles(0, &vec![]).is_err());
    assert!(check_scene(&vec![None, Some(0), Some(1)], &vec![2]).is_ok());
    assert!(check_scene(&vec![None, Some(1)], &vec![]).is_err());
    assert!(check_scene(&vec![None], &vec![1]).is_err());
}

fn node(children: Vec<usize>, mesh: Option<SourceMesh>) -> SourceNode {
    SourceNode { children, mesh }
}

#[test]
fn scene_layouts_place_parents_first_and_refuse_shared_nodes() {
    let doc = vec![
        node(vec![1, 2], None),
        node(vec![], Some(SourceMesh { index: 4, materials: vec![Some(1), None] })),
        node(vec![], None),
    ];
    let layout = layout_scene(&doc, &vec![0]).unwrap();
    let parents: Vec<_> = layout.nodes.iter().map(|n| n.parent).collect();
    assert_eq!(parents, vec![None, Some(0), Some(0)]);
    assert_eq!(layout.instances.len(), 2);
    assert_eq!(layout.instances[0].mesh, "meshes/4/primitives/0");
    assert_eq!(layout.instances[1].material, "materials/default");
    assert!(check_scene(&parents, &layout.instances.iter().map(|i| i.node).collect()).is_ok());
    let shared = vec![node(vec![1], None), node(vec![], None)];
    assert_eq!(layout_scene(&shared, &vec![0, 1]).unwrap_err().kind, ErrorKind::Import);
    let cyclic = vec![node(vec![0], None)];
    assert!(layout_scene(&cyclic, &vec![0]).is_err());
}

#[test]
fn scene_layouts_go_depth_first_and_stop_at_the_depth_limit() {
    let doc = vec![
        node(vec![1, 3], None),
        node(vec![2], None),
        node(vec![], Some(SourceMesh { index: 0, materials: vec![Some(7)] })),
        node(vec![], None),
    ];
    let layout = layout_scene(&doc, &vec![0]).unwrap();
    let order: Vec<_> = layout.nodes.iter().map(|n| (n.source_index, n.parent)).collect();
    assert_eq!(order, vec![(0, None), (1, Some(0)), (2, Some(1)), (3, Some(0))]);
    assert_eq!(layout.instances.len(), 1);
    assert_eq!(layout.instances[0].node, 2);
    assert_eq!(layout.instances[0].material, "materials/7");
    let chain = |n: usize| -> Vec<SourceNode> {
        (0..n).map(|i| node(if i + 1 < n { vec![i + 1] } else { vec![] }, None)).collect()
    };
    assert_eq!(layout_scene(&chain(128), &vec![0]).unwrap().nodes.len(), 128);
    assert_eq!(layout_scene(&chain(129), &vec![0]).unwrap_err().kind, ErrorKind::Import);
}

#[test]
fn image_formats_follow_usage_compression_and_depth() {
    let settings = TextureSettings::default();
    assert_eq!(select_format(&settings, SampleDepth::Eight), TextureFormat::Bc7Srgb);
    let normal = TextureSettings { usage: TextureUsage::Normal, ..TextureSettings::default() };
    assert_eq!(select_format(&normal, SampleDepth::Float), TextureFormat::Bc5Unorm);
    let raw = TextureSettings {
        usage: TextureUsage::Linear,
        mipmaps: false,
        compression: TextureCompression::Uncompressed,
    };
    assert_eq!(select_format(&raw, SampleDepth::Sixteen), TextureFormat::Rgba16Unorm);
    assert_eq!(select_format(&raw, SampleDepth::Eight), TextureFormat::Rgba8Unorm);
    assert_eq!(select_format(&raw, SampleDepth::Float), TextureFormat::Rgba32Float);
    let color = TextureSettings { usage: TextureUsage::Color, ..raw };
    assert_eq!(select_format(&color, SampleDepth::Eight), TextureFormat::Rgba8Srgb);
    assert!(srgb_input(&color, SampleDepth::Eight));
    assert!(!srgb_input(&color, SampleDepth::Float));
    assert_eq!(mip_count(5, 3, true), 3);
    assert_eq!(mip_count(8192, 1, true), 14);
    assert_eq!(mip_count(5, 3, false), 1);
    assert!(check_image_size(8192, 1).is_ok());
    assert!(check_image_size(8193, 1).is_err());
    assert!(check_image_size(0, 1).is_err());
    assert_eq!(ImageImporter.extensions().len(), 8);
    assert_eq!(ImageImporter.key(), "zenith.image");
}

#[test]
fn surfaces_pad_to_whole_blocks_by_repeating_edges() {
    let bytes = vec![1, 2, 3, 4, 5, 6];
    let (padded, w, h) = pad_surface(&bytes, 3, 2, 1);
    assert_eq!((w, h), (4, 4));
    assert_eq!(
        padded,
        vec![1, 2, 3, 3, 4, 5, 6, 6, 4, 5, 6, 6, 4, 5, 6, 6]
    );
    let whole: Vec<u8> = (0..32).collect();
    let (same, w, h) = pad_surface(&whole, 4, 4, 2);
    assert_eq!((same, w, h), (whole.clone(), 4, 4));
}

#[test]
fn hdr_faces_are_powers_of_two() {
    assert_eq!(hdr_face_size(1000, 500, None).unwrap(), 512);
    assert_eq!(hdr_face_size(8000, 4000, None).unwrap(), 2048);
    assert_eq!(hdr_face_size(1, 1, None).unwrap(), 1);
    assert_eq!(hdr_face_size(10, 10, Some(64)).unwrap(), 64);
    assert_eq!(hdr_face_size(10, 10, Some(48)).unwrap_err().kind, ErrorKind::Import);
    assert!(hdr_face_size(10, 10, Some(4096)).is_err());
    assert!(hdr_face_size(0, 10, None).is_err());
    assert_eq!(hdr_format(TextureCompression::Block), TextureFormat::Bc6hUfloat);
    assert_eq!(hdr_format(TextureCompression::Uncompressed), TextureFormat::Rgba16Float);
    assert!(HdrSettings::default().mipmaps);
    assert_eq!(HdrImporter.extensions(), vec!["hdr"]);
    assert_eq!(GltfImporter.extensions(), vec!["gltf", "glb"]);
    assert_eq!(GltfImporter.version(), 3);
    assert!(GltfSettings::default().y_up_to_z_up);
}

#[test]
fn imports_record_sources_and_outputs() {
    let mut registry = Registry::new();
    registry.register_type(TypeInfo {
        key: "zenith.texture".to_owned(),
        type_token: 5,
        schema: 2,
        codec: "bincode-serde-2".to_owned(),
    });
    let address = AssetAddress::parse("a.png").unwrap();
    let mut record = ImportRecord::new(address.clone());
    record.record_input(&address, b"png bytes").unwrap();
    record.record_input(&address, b"png bytes").unwrap();
    assert_eq!(record.inputs.len(), 1);
    assert_eq!(record.source_bytes, 18);
    assert_eq!(
        record.record_input(&address, b"other").unwrap_err().kind,
        ErrorKind::Import
    );
    record.insert(&registry, "", "zenith.texture", 5, vec![1, 2]).unwrap();
    assert_eq!(
        record.insert(&registry, "", "zenith.texture", 5, vec![1]).unwrap_err().kind,
        ErrorKind::Import
    );
    assert_eq!(
        record.insert(&registry, "x", "zenith.mesh", 5, vec![1]).unwrap_err().kind,
        ErrorKind::Registration
    );
    assert!(record.check_bundle_size().is_ok());
    assert_eq!(record.path("images/./0").unwrap().label(), Some("images/0"));
    let labelled = AssetAddress::parse("a.png#x").unwrap();
    assert!(ImportRecord::check_source(&labelled).is_err());
    assert!(ImportRecord::check_source(&address).is_ok());
    assert!(relative_source_path("dir/../x").is_err());
    assert!(relative_source_path("pack://x").is_err());
    assert_eq!(relative_source_path("dir/./x.png").unwrap().path(), "dir/x.png");
    assert_eq!(FileSource::new("/assets".to_owned()).root(), "/assets");
}

#[test]
fn memory_sources_store_by_normalized_path() {
    let mut source = MemorySource::new();
    source.insert(".//a.png", vec![1, 2, 3]).unwrap();
    assert_eq!(source.read("a.png").unwrap(), vec![1, 2, 3]);
    source.insert("a.png", vec![4]).unwrap();
    assert_eq!(source.read("a.png").unwrap(), vec![4]);
    let missing = source.read("b.png").unwrap_err();
    assert_eq!(missing.kind, ErrorKind::MissingAsset);
    assert_eq!(missing.message, "source not found: b.png");
    assert_eq!(source.insert("mem://a.png", vec![]).unwrap_err().kind, ErrorKind::InvalidPath);
    assert_eq!(source.insert("a.png#label", vec![]).unwrap_err().kind, ErrorKind::InvalidPath);
    assert!(source.remove("./a.png").unwrap());
    assert!(!source.remove("a.png").unwrap());
    assert!(source.read("a.png").is_err());
    assert!(source.remove("../a.png").is_err());
}

#[test]
fn surfaces_compress_to_whole_blocks() {
    let rgba = vec![128u8; 5 * 3 * 4];
    let bc7 = compress_blocks(TextureFormat::Bc7Srgb, &rgba, 5, 3);
    assert_eq!(bc7.len(), TextureFormat::Bc7Srgb.data_size_in_bytes(5, 3));
    assert_eq!(bc7.len(), 32);
    let bc5 = compress_blocks(TextureFormat::Bc5Unorm, &vec![7u8; 4 * 4 * 4], 4, 4);
    assert_eq!(bc5.len(), 16);
    let half_one = [0x00u8, 0x3C];
    let rgba16f: Vec<u8> = half_one.iter().copied().cycle().take(8).collect();
    let bc6h = compress_blocks(TextureFormat::Bc6hUfloat, &rgba16f, 1, 1);
    assert_eq!(bc6h.len(), 16);
}
