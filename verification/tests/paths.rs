use zenith::error::ErrorKind;
use zenith::path::{normalize, AssetAddress, AssetPath};

#[derive(Debug)]
struct Number;

fn round_trip_parts(address: &AssetAddress) -> AssetAddress {
    AssetAddress::from_parts(
        address.source(),
        address.path(),
        address.label(),
        address.variant(),
    )
    .unwrap()
}

#[test]
fn paths_are_typed_validated_and_round_trip() {
    for invalid in [
        "",
        "../a.number",
        "/a.number",
        "C:/a.number",
        r"\\host\share\a",
        "x#../bad",
        "a.#label",
        "x#",
    ] {
        assert!(AssetPath::<Number>::new(invalid).is_err(), "{invalid}");
    }
    let path = AssetPath::<Number>::new(r"models\.\box.gltf#meshes/0").unwrap();
    assert_eq!(path.address().path(), "models/box.gltf");
    let decoded = AssetPath::<Number>::from_address(round_trip_parts(path.address()));
    assert_eq!(path, decoded);
    assert_eq!(
        path.address().relative("../data.bin").unwrap().path(),
        "data.bin"
    );
    assert!(path.address().relative("../../data.bin").is_err());
}

#[test]
fn normalization_drops_empty_and_dot_components() {
    assert_eq!(normalize("a//b/./c").unwrap(), "a/b/c");
    assert_eq!(normalize(r"a\b").unwrap(), "a/b");
    assert_eq!(normalize("./a/").unwrap(), "a");
    assert_eq!(normalize("a/b. ").unwrap_err().kind, ErrorKind::InvalidPath);
    assert!(normalize("a/../b").is_err());
    assert!(normalize("a/b?").is_err());
    assert!(normalize("./.").is_err());
    let once = normalize(r"x\\y/./z").unwrap();
    assert_eq!(normalize(&once).unwrap(), once);
}

#[test]
fn addresses_parse_their_namespace_path_and_label() {
    let a = AssetAddress::parse("pack://dir/file.gltf#meshes/1").unwrap();
    assert_eq!(a.source(), "pack");
    assert_eq!(a.path(), "dir/file.gltf");
    assert_eq!(a.label(), Some("meshes/1"));
    assert_eq!(a.variant(), "");
    let d = AssetAddress::parse("file.gltf").unwrap();
    assert_eq!(d.source(), "default");
    assert_eq!(d.label(), None);
    assert_eq!(
        AssetAddress::parse("bad name://x").unwrap_err().kind,
        ErrorKind::InvalidPath
    );
    assert!(AssetAddress::parse("://x").is_err());
}

#[test]
fn the_text_of_an_address_parses_back() {
    let a = AssetAddress::parse(r"pack://dir\.\file.gltf#./meshes//1").unwrap();
    let text = a.describe();
    assert_eq!(text, "pack://dir/file.gltf#meshes/1");
    assert_eq!(AssetAddress::parse(&text).unwrap(), a);
    let root = a.root();
    assert_eq!(root.describe(), "pack://dir/file.gltf");
    assert_eq!(root.with_label("x/./y").unwrap().label(), Some("x/y"));
}

#[test]
fn variants_show_in_text_and_must_be_digests() {
    let digest = "ab".repeat(32);
    let mut a = AssetAddress::parse("a.tex").unwrap();
    a.set_variant(digest.clone());
    assert_eq!(a.describe(), format!("default://a.tex [{digest}]"));
    assert_eq!(round_trip_parts(&a), a);
    assert_eq!(
        AssetAddress::from_parts("default", "a.tex", None, "xyz")
            .unwrap_err()
            .kind,
        ErrorKind::InvalidData
    );
    assert!(AssetAddress::from_parts("default", "a.tex", Some(""), "").is_err());
}

#[test]
fn relative_paths_resolve_from_the_directory() {
    let a = AssetAddress::parse("pack://models/car/body.gltf#meshes/0").unwrap();
    let r = a.relative("textures/paint.png").unwrap();
    assert_eq!(r.describe(), "pack://models/car/textures/paint.png");
    assert_eq!(a.relative("./../wheel.bin").unwrap().path(), "models/wheel.bin");
    assert!(a.relative("/abs").is_err());
    assert!(a.relative("x:y").is_err());
    assert!(a.relative("../../../up").is_err());
    let top = AssetAddress::parse("top.gltf").unwrap();
    assert!(top.relative("../x").is_err());
    assert!(top.relative("").is_err());
}
