use zenith::error::ErrorKind;
use zenith::gltf_doc::{
    check_buffer_length, image_view_range, plan_gltf_scenes, plan_gltf_textures, read_gltf,
};
use zenith::image::{decode_embedded_image, decode_image, image_plan, sample_depth, SampleDepth};
use zenith::texture::{TextureCompression, TextureFormat, TextureSettings, TextureUsage};

const DOC: &str = r#"{"asset":{"version":"2.0"},"scene":1,
  "scenes":[{"nodes":[1]},{"nodes":[0]}],
  "nodes":[{"children":[1]},{}]}"#;

#[test]
fn a_gltf_document_is_read_and_its_scenes_laid_out() {
    let doc = read_gltf(DOC.as_bytes()).unwrap();
    assert_eq!(doc.nodes.len(), 2);
    assert_eq!(doc.nodes[0].children, vec![1]);
    assert!(doc.nodes[1].children.is_empty());
    assert_eq!(doc.scenes, vec![vec![1], vec![0]]);
    assert_eq!(doc.default_scene, Some(1));
    assert!(doc.textures.is_empty());
    let plan = plan_gltf_scenes(&doc.nodes, &doc.scenes, doc.default_scene).unwrap();
    assert_eq!(plan.root, 1);
    assert_eq!(plan.layouts.len(), 2);
    assert_eq!(plan.layouts[0].nodes.len(), 1);
    assert_eq!(plan.layouts[1].nodes.len(), 2);
    assert_eq!(plan.layouts[1].nodes[1].parent, Some(0));
    let e = plan_gltf_scenes(&doc.nodes, &doc.scenes, Some(5)).err().unwrap();
    assert_eq!(e.message, "glTF document contains no scene");
    let e = read_gltf(b"not a document").err().unwrap();
    assert_eq!((e.kind, e.message.as_str()), (ErrorKind::Import, "parse glTF"));
}

#[test]
fn textures_are_baked_once_per_usage_until_an_unsupported_coordinate_set() {
    let materials = vec![
        vec![Some((0, 0)), None, Some((1, 0)), Some((0, 0))],
        vec![Some((0, 0)), Some((2, 1)), Some((3, 0)), None],
    ];
    let plan = plan_gltf_textures(&materials);
    assert_eq!(plan.bakes, vec![(0, TextureUsage::Color), (1, TextureUsage::Normal)]);
    assert!(plan.unsupported_coord);
    let fine = plan_gltf_textures(&vec![vec![None, Some((4, 0)), None, None]]);
    assert_eq!(fine.bakes, vec![(4, TextureUsage::Linear)]);
    assert!(!fine.unsupported_coord);
}

#[test]
fn buffers_and_image_views_are_checked() {
    assert!(check_buffer_length(10, 10).is_ok());
    assert_eq!(
        check_buffer_length(9, 10).unwrap_err().message,
        "glTF buffer is shorter than its declared length"
    );
    assert_eq!(image_view_range(Some(10), 2, 8).unwrap(), (2, 10));
    assert_eq!(image_view_range(None, 0, 1).unwrap_err().message, "invalid image buffer");
    assert_eq!(image_view_range(Some(10), 2, 9).unwrap_err().message, "image buffer range is out of bounds");
    assert_eq!(image_view_range(Some(10), usize::MAX, 1).unwrap_err().message, "image buffer range overflow");
}

fn png(width: u32, height: u32) -> Vec<u8> {
    let image = image::RgbaImage::new(width, height);
    let mut bytes = std::io::Cursor::new(Vec::new());
    image.write_to(&mut bytes, image::ImageFormat::Png).unwrap();
    bytes.into_inner()
}

#[test]
fn image_files_are_decoded_by_extension_and_planned() {
    let bytes = png(5, 3);
    let d = decode_image(&bytes, "png").unwrap();
    assert_eq!((d.width, d.height, d.bytes_per_pixel, d.channels), (5, 3, 4, 4));
    let e = decode_image(&bytes, "nope").err().unwrap();
    assert_eq!((e.kind, e.message.as_str()), (ErrorKind::UnsupportedImporter, "unsupported image extension"));
    let e = decode_image(b"garbage", "png").err().unwrap();
    assert_eq!((e.kind, e.message.as_str()), (ErrorKind::Import, "decode image"));
    let g = decode_embedded_image(&bytes, "decode glTF image").unwrap();
    assert_eq!((g.width, g.height), (5, 3));
    assert_eq!(decode_embedded_image(b"x", "decode glTF image").err().unwrap().message, "decode glTF image");
    let settings = TextureSettings { usage: TextureUsage::Color, mipmaps: true, compression: TextureCompression::Block };
    let plan = image_plan(d.width, d.height, d.bytes_per_pixel, d.channels, &settings).unwrap();
    assert_eq!(plan.depth, SampleDepth::Eight);
    assert_eq!(plan.format, TextureFormat::Bc7Srgb);
    assert!(plan.srgb);
    assert_eq!(plan.mip_levels, 3);
    assert_eq!(image_plan(0, 3, 4, 4, &settings).unwrap_err().kind, ErrorKind::Import);
    assert_eq!(sample_depth(8, 4), SampleDepth::Sixteen);
    assert_eq!(sample_depth(16, 4), SampleDepth::Float);
    assert_eq!(sample_depth(3, 3), SampleDepth::Eight);
}
