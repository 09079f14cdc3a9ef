use zenith::cache::Dependency;
use zenith::dependency::{
    address_less, check_recorded_dependencies, dependency_less, normalize_dependencies,
    same_dependencies,
};
use zenith::error::ErrorKind;
use zenith::path::AssetAddress;
use zenith::text::text_less;

fn dep(address: &str, type_key: &str) -> Dependency {
    Dependency {
        address: AssetAddress::parse(address).unwrap(),
        type_key: type_key.to_owned(),
    }
}

fn names(deps: &[Dependency]) -> Vec<String> {
    deps.iter()
        .map(|d| format!("{} {}", d.address.describe(), d.type_key))
        .collect()
}

#[test]
fn strings_order_by_characters_with_prefixes_first() {
    assert!(text_less("a", "b"));
    assert!(text_less("ab", "abc"));
    assert!(!text_less("abc", "ab"));
    assert!(!text_less("abc", "abc"));
    assert!(text_less("", "a"));
    assert!(text_less("Z", "a"));
    assert!(text_less("é", "😀"));
}

#[test]
fn addresses_order_by_namespace_path_label_and_variant() {
    let a = AssetAddress::parse("a.gltf").unwrap();
    let labelled = AssetAddress::parse("a.gltf#mesh0").unwrap();
    let other = AssetAddress::parse("mem://a.gltf").unwrap();
    assert!(address_less(&a, &labelled));
    assert!(!address_less(&labelled, &a));
    assert!(address_less(&labelled, &other));
    assert!(!address_less(&a, &a));
    assert!(dependency_less(&dep("a.tex", "zenith.mesh"), &dep("a.tex", "zenith.texture")));
}

#[test]
fn dependencies_are_sorted_without_repeats() {
    let deps = vec![
        dep("mem://a.tex", "zenith.texture"),
        dep("b.mat", "zenith.material"),
        dep("a.tex#x", "zenith.texture"),
        dep("b.mat", "zenith.material"),
        dep("a.tex", "zenith.texture"),
    ];
    let sorted = normalize_dependencies(deps);
    assert_eq!(
        names(&sorted),
        vec![
            "default://a.tex zenith.texture",
            "default://a.tex#x zenith.texture",
            "default://b.mat zenith.material",
            "mem://a.tex zenith.texture",
        ]
    );
    assert!(normalize_dependencies(Vec::new()).is_empty());
}

#[test]
fn cached_dependencies_must_match_the_decoded_ones() {
    let decoded = vec![dep("a.tex", "zenith.texture")];
    let recorded = vec![dep("a.tex", "zenith.texture")];
    let address = AssetAddress::parse("m.mat").unwrap();
    assert!(same_dependencies(&decoded, &recorded));
    assert!(check_recorded_dependencies(false, &decoded, &recorded, &address).is_ok());
    let err = check_recorded_dependencies(false, &decoded, &Vec::new(), &address).unwrap_err();
    assert_eq!(err.kind, ErrorKind::Cache);
    assert_eq!(
        err.message,
        "dependency metadata disagrees with decoded asset: default://m.mat"
    );
    assert!(check_recorded_dependencies(true, &decoded, &Vec::new(), &address).is_ok());
}

#[test]
fn normalizing_ignores_the_order_dependencies_were_asked_for() {
    let forward = vec![
        dep("b.mat", "zenith.material"),
        dep("a.tex", "zenith.texture"),
        dep("a.tex", "zenith.mesh"),
        dep("mem://z", "zenith.texture"),
    ];
    let mut backward: Vec<Dependency> = forward
        .iter()
        .map(|d| Dependency { address: d.address.clone(), type_key: d.type_key.clone() })
        .collect();
    backward.reverse();
    backward.push(dep("a.tex", "zenith.mesh"));
    let a = normalize_dependencies(forward);
    let b = normalize_dependencies(backward);
    assert!(same_dependencies(&a, &b));
    assert_eq!(names(&a)[0], "default://a.tex zenith.mesh");
}
