use vstd::prelude::*;
use crate::error::{AssetError, ErrorKind, Result};
use crate::mesh::{
    SourceMesh, SourceNode, SceneLayout, check_document, check_roots, layout_scene, document_ok,
    scene_layout_spec, instance_views,
};
use crate::texture::TextureUsage;

verus! {

// ---------------------------------------------------------------------------
// What a glTF document holds, as plain values.

#[verifier::external_type_specification]
#[verifier::external_body]
pub struct ExGltf(gltf::Gltf);

/// A parsed glTF document together with the bytes it was parsed from. Only
/// `read_gltf` makes one, so the document is always the parse of `source`.
pub struct GltfSource {
    source: Vec<u8>,
    gltf: gltf::Gltf,
}

impl GltfSource {
    /// The bytes the document was parsed from.
    pub closed spec fn source_bytes(&self) -> Seq<u8> {
        self.source@
    }

    /// The parsed document, for the floating-point data the library does not
    /// read: accessors, transforms and material factors.
    pub fn into_gltf(self) -> gltf::Gltf {
        self.gltf
    }
}

/// A node as plain values: its children, and its mesh with the material of
/// each primitive.
pub open spec fn node_view(n: SourceNode) -> (Seq<usize>, Option<(usize, Seq<Option<usize>>)>) {
    (
        n.children@,
        match n.mesh {
            Some(m) => Some((m.index, m.materials@)),
            None => None,
        },
    )
}

pub open spec fn node_views(nodes: Seq<SourceNode>) -> Seq<(Seq<usize>, Option<(usize, Seq<Option<usize>>)>)> {
    Seq::new(nodes.len(), |i: int| node_view(nodes[i]))
}

pub open spec fn scene_views(scenes: Seq<Vec<usize>>) -> Seq<Seq<usize>> {
    Seq::new(scenes.len(), |i: int| scenes[i]@)
}

pub open spec fn texture_views(materials: Seq<Vec<Option<(usize, u32)>>>) -> Seq<Seq<Option<(usize, u32)>>> {
    Seq::new(materials.len(), |i: int| materials[i]@)
}

/// Whether `gltf::Gltf::from_slice` accepts `bytes`.
pub uninterp spec fn gltf_parses(bytes: Seq<u8>) -> bool;

/// The nodes of the document `bytes` parse to, in order.
pub uninterp spec fn gltf_nodes_of(bytes: Seq<u8>) -> Seq<(Seq<usize>, Option<(usize, Seq<Option<usize>>)>)>;

/// The root nodes of each scene of the document `bytes` parse to.
pub uninterp spec fn gltf_scenes_of(bytes: Seq<u8>) -> Seq<Seq<usize>>;

/// The default scene the document `bytes` parse to names, if any.
pub uninterp spec fn gltf_default_scene_of(bytes: Seq<u8>) -> Option<usize>;

/// For each material of the document `bytes` parse to: its base colour,
/// metallic-roughness, normal and emissive textures, each as the image it
/// samples and the texture coordinate set it reads.
pub uninterp spec fn gltf_material_textures_of(bytes: Seq<u8>) -> Seq<Seq<Option<(usize, u32)>>>;

/// `gltf::Gltf::from_slice`: whether it accepts `bytes` is named; the
/// document is kept with the bytes it came from.
#[verifier::external_body]
fn parse_gltf(bytes: &[u8]) -> (r: core::result::Result<GltfSource, String>)
    ensures
        r is Ok <==> gltf_parses(bytes@),
        r matches Ok(s) ==> s.source_bytes() == bytes@,
{
    match gltf::Gltf::from_slice(bytes) {
        Ok(gltf) => Ok(GltfSource { source: bytes.to_vec(), gltf }),
        Err(e) => Err(e.to_string()),
    }
}

/// `Document::nodes` of the parsed document: each node's children and its
/// mesh's index and primitive materials, by index.
#[verifier::external_body]
fn gltf_nodes(s: &GltfSource) -> (nodes: Vec<SourceNode>)
    ensures
        node_views(nodes@) == gltf_nodes_of(s.source_bytes()),
{
    s.gltf.nodes().map(|n| SourceNode {
        children: n.children().map(|c| c.index()).collect(),
        mesh: n.mesh().map(|m| SourceMesh {
            index: m.index(),
            materials: m.primitives().map(|p| p.material().index()).collect(),
        }),
    }).collect()
}

/// `Document::scenes` of the parsed document: each scene's root nodes.
#[verifier::external_body]
fn gltf_scenes(s: &GltfSource) -> (scenes: Vec<Vec<usize>>)
    ensures
        scene_views(scenes@) == gltf_scenes_of(s.source_bytes()),
{
    s.gltf.scenes().map(|scene| scene.nodes().map(|n| n.index()).collect()).collect()
}

/// `Document::default_scene` of the parsed document, by index.
#[verifier::external_body]
fn gltf_default_scene(s: &GltfSource) -> (scene: Option<usize>)
    ensures
        scene == gltf_default_scene_of(s.source_bytes()),
{
    s.gltf.default_scene().map(|scene| scene.index())
}

/// `Document::materials` of the parsed document: the four texture slots of
/// each material, each as the image index and coordinate set it uses.
#[verifier::external_body]
fn gltf_material_textures(s: &GltfSource) -> (textures: Vec<Vec<Option<(usize, u32)>>>)
    ensures
        texture_views(textures@) == gltf_material_textures_of(s.source_bytes()),
{
    s.gltf.materials().map(|m| {
        let p = m.pbr_metallic_roughness();
        vec![
            p.base_color_texture().map(|t| (t.texture().source().index(), t.tex_coord())),
            p.metallic_roughness_texture().map(|t| (t.texture().source().index(), t.tex_coord())),
            m.normal_texture().map(|t| (t.texture().source().index(), t.tex_coord())),
            m.emissive_texture().map(|t| (t.texture().source().index(), t.tex_coord())),
        ]
    }).collect()
}

/// A glTF document as the library reads it: the parse, its nodes, scenes,
/// default scene and the textures of its materials.
pub struct GltfDocument {
    pub source: GltfSource,
    pub nodes: Vec<SourceNode>,
    pub scenes: Vec<Vec<usize>>,
    pub default_scene: Option<usize>,
    pub textures: Vec<Vec<Option<(usize, u32)>>>,
}

/// Parses a glTF or GLB file and reads its structure. Refused, as an import
/// error, when the `gltf` crate refuses the bytes.
pub fn read_gltf(bytes: &[u8]) -> (res: Result<GltfDocument>)
    ensures
        res is Ok <==> gltf_parses(bytes@),
        res matches Ok(d) ==> {
            &&& d.source.source_bytes() == bytes@
            &&& node_views(d.nodes@) == gltf_nodes_of(bytes@)
            &&& scene_views(d.scenes@) == gltf_scenes_of(bytes@)
            &&& d.default_scene == gltf_default_scene_of(bytes@)
            &&& texture_views(d.textures@) == gltf_material_textures_of(bytes@)
        },
        res matches Err(e) ==> e.kind == ErrorKind::Import && e.message@ == "parse glTF"@,
{
    match parse_gltf(bytes) {
        Ok(source) => {
            let nodes = gltf_nodes(&source);
            let scenes = gltf_scenes(&source);
            let default_scene = gltf_default_scene(&source);
            let textures = gltf_material_textures(&source);
            Ok(GltfDocument { source, nodes, scenes, default_scene, textures })
        },
        Err(text) => Err(AssetError::caused_by(ErrorKind::Import, "parse glTF", text.as_str())),
    }
}

// ---------------------------------------------------------------------------
// Buffers and the images stored in them.

/// Checks that a buffer's data is at least as long as the document declares.
pub fn check_buffer_length(data: usize, declared: usize) -> (res: Result<()>)
    ensures
        res is Ok <==> data >= declared,
        res matches Err(e) ==> e.kind == ErrorKind::Import && e.message@
            == "glTF buffer is shorter than its declared length"@,
{
    proof {
        reveal_strlit("glTF buffer is shorter than its declared length");
    }
    if data < declared {
        return Err(AssetError::new(ErrorKind::Import, "glTF buffer is shorter than its declared length"));
    }
    Ok(())
}

/// The byte range of an image stored in a buffer view: `offset` to
/// `offset + length` of a buffer of `buffer` bytes, if the view's buffer
/// exists. Refused when the buffer does not exist, the end overflows, or the
/// range runs past the buffer.
pub fn image_view_range(buffer: Option<usize>, offset: usize, length: usize) -> (res: Result<(usize, usize)>)
    ensures
        match res {
            Ok((start, end)) => buffer matches Some(n) && start == offset && end == offset + length
                && end <= n,
            Err(e) => e.kind == ErrorKind::Import && e.message@ == match buffer {
                None => "invalid image buffer"@,
                Some(n) => if offset + length > usize::MAX {
                    "image buffer range overflow"@
                } else {
                    "image buffer range is out of bounds"@
                },
            } && !(buffer matches Some(n) && offset + length <= n),
        },
{
    proof {
        reveal_strlit("invalid image buffer");
        reveal_strlit("image buffer range overflow");
        reveal_strlit("image buffer range is out of bounds");
    }
    let n = match buffer {
        Some(n) => n,
        None => {
            return Err(AssetError::new(ErrorKind::Import, "invalid image buffer"));
        },
    };
    let end = match offset.checked_add(length) {
        Some(end) => end,
        None => {
            return Err(AssetError::new(ErrorKind::Import, "image buffer range overflow"));
        },
    };
    if end > n {
        return Err(AssetError::new(ErrorKind::Import, "image buffer range is out of bounds"));
    }
    Ok((offset, end))
}

// ---------------------------------------------------------------------------
// Which textures a document bakes.

/// The usage of a material's texture slot: base colour, metallic-roughness,
/// normal, emissive.
pub open spec fn slot_usage(k: int) -> TextureUsage {
    if k == 1 {
        TextureUsage::Linear
    } else if k == 2 {
        TextureUsage::Normal
    } else {
        TextureUsage::Color
    }
}

/// The textures the first `n` slots of one material use, in order.
pub open spec fn slot_uses(slots: Seq<Option<(usize, u32)>>, n: int) -> Seq<(usize, u32, TextureUsage)>
    decreases n,
{
    if n <= 0 {
        Seq::empty()
    } else {
        slot_uses(slots, n - 1) + match slots[n - 1] {
            Some((image, coord)) => seq![(image, coord, slot_usage(n - 1))],
            None => Seq::empty(),
        }
    }
}

/// The textures the materials use, material by material, slot by slot.
pub open spec fn texture_uses(materials: Seq<Seq<Option<(usize, u32)>>>) -> Seq<(usize, u32, TextureUsage)>
    decreases materials.len(),
{
    if materials.len() == 0 {
        Seq::empty()
    } else {
        texture_uses(materials.drop_last()) + slot_uses(materials.last(), materials.last().len() as int)
    }
}

/// The images to bake, each once for each usage, in the order of their first
/// use, up to the first use of a coordinate set other than the first; and
/// whether such a use stopped the list.
pub open spec fn texture_plan(uses: Seq<(usize, u32, TextureUsage)>) -> (Seq<(usize, TextureUsage)>, bool)
    decreases uses.len(),
{
    if uses.len() == 0 {
        (Seq::empty(), false)
    } else {
        let (bakes, stopped) = texture_plan(uses.drop_last());
        let (image, coord, usage) = uses.last();
        if stopped {
            (bakes, true)
        } else if coord != 0 {
            (bakes, true)
        } else if bakes.contains((image, usage)) {
            (bakes, false)
        } else {
            (bakes.push((image, usage)), false)
        }
    }
}

/// The textures a glTF import bakes, and whether it then stops because a
/// material reads a coordinate set other than `TEXCOORD_0`.
pub struct GltfTexturePlan {
    pub bakes: Vec<(usize, TextureUsage)>,
    pub unsupported_coord: bool,
}

fn planned(bakes: &Vec<(usize, TextureUsage)>, image: usize, usage: TextureUsage) -> (b: bool)
    ensures
        b == bakes@.contains((image, usage)),
{
    let mut i: usize = 0;
    while i < bakes.len()
        invariant
            i <= bakes@.len(),
            forall|j: int| 0 <= j < i ==> bakes@[j] != (image, usage),
        decreases bakes.len() - i,
    {
        if bakes[i].0 == image && bakes[i].1 == usage {
            assert(bakes@[i as int] == (image, usage));
            return true;
        }
        i = i + 1;
    }
    false
}

/// Plans the textures of a document's materials: each image once for each
/// usage, in the order of first use, stopping at the first texture that
/// reads another coordinate set than the first.
pub fn plan_gltf_textures(materials: &Vec<Vec<Option<(usize, u32)>>>) -> (plan: GltfTexturePlan)
    ensures
        (plan.bakes@, plan.unsupported_coord) == texture_plan(texture_uses(texture_views(materials@))),
{
    let ghost views = texture_views(materials@);
    let mut bakes: Vec<(usize, TextureUsage)> = Vec::new();
    let mut stopped = false;
    let ghost mut seen: Seq<(usize, u32, TextureUsage)> = Seq::empty();
    let mut m: usize = 0;
    while m < materials.len()
        invariant
            m <= materials@.len(),
            views == texture_views(materials@),
            seen == texture_uses(views.take(m as int)),
            (bakes@, stopped) == texture_plan(seen),
        decreases materials.len() - m,
    {
        let slots = &materials[m];
        let ghost base = seen;
        let mut k: usize = 0;
        while k < slots.len()
            invariant
                k <= slots@.len(),
                slots@ == views[m as int],
                seen == base + slot_uses(slots@, k as int),
                (bakes@, stopped) == texture_plan(seen),
            decreases slots.len() - k,
        {
            let usage = if k == 1 {
                TextureUsage::Linear
            } else if k == 2 {
                TextureUsage::Normal
            } else {
                TextureUsage::Color
            };
            match slots[k] {
                Some((image, coord)) => {
                    let ghost before = seen;
                    proof {
                        seen = seen.push((image, coord, usage));
                        assert(seen.drop_last() =~= before);
                        assert(slot_uses(slots@, k + 1) =~= slot_uses(slots@, k as int) + seq![
                            (image, coord, usage),
                        ]);
                    }
                    if !stopped {
                        if coord != 0 {
                            stopped = true;
                        } else if !planned(&bakes, image, usage) {
                            bakes.push((image, usage));
                        }
                    }
                },
                None => {
                    assert(slot_uses(slots@, k + 1) =~= slot_uses(slots@, k as int));
                },
            }
            k = k + 1;
        }
        proof {
            assert(views.take(m + 1).drop_last() =~= views.take(m as int));
            assert(views.take(m + 1).last() == views[m as int]);
        }
        m = m + 1;
    }
    assert(views.take(materials@.len() as int) =~= views);
    GltfTexturePlan { bakes, unsupported_coord: stopped }
}

// ---------------------------------------------------------------------------
// Which scenes a document lays out.

/// The scenes of a document laid out, in order, and the position of the one
/// the import gives as its result.
pub struct GltfScenePlan {
    pub layouts: Vec<SceneLayout>,
    pub root: usize,
}

/// Every root of every scene is a node of the document.
pub open spec fn scene_roots_ok(nodes: nat, scenes: Seq<Vec<usize>>) -> bool {
    forall|s: int, i: int|
        0 <= s < scenes.len() && 0 <= i < scenes[s]@.len() ==> #[trigger] scenes[s]@[i] < nodes
}

/// The scene an import gives as its result: the document's default scene,
/// else the first.
pub open spec fn root_scene(default_scene: Option<usize>) -> usize {
    match default_scene {
        Some(s) => s,
        None => 0,
    }
}

/// The import gives the default scene when the document names one, and
/// otherwise the first scene: so a document without a default scene whose
/// scenes lay out plans successfully, with its first scene as the result.
pub proof fn lemma_first_scene_without_default(
    nodes: Seq<SourceNode>,
    scenes: Seq<Vec<usize>>,
    default_scene: Option<usize>,
)
    ensures
        default_scene matches Some(s) ==> root_scene(default_scene) == s,
        default_scene is None && scenes.len() > 0 ==> root_scene(default_scene) == 0
            && root_scene(default_scene) < scenes.len(),
        default_scene is None && scenes.len() > 0 && document_ok(nodes) && scene_roots_ok(
            nodes.len(),
            scenes,
        ) && (forall|s: int| 0 <= s < scenes.len() ==> (#[trigger] scene_layout_spec(nodes, scenes[s]@)) is Some)
            ==> ({
            &&& document_ok(nodes)
            &&& scene_roots_ok(nodes.len(), scenes)
            &&& forall|s: int| 0 <= s < scenes.len() ==> (#[trigger] scene_layout_spec(nodes, scenes[s]@)) is Some
            &&& root_scene(default_scene) < scenes.len()
        }),
{
}

/// Lays out every scene of a document and picks the one the import gives.
/// Refused when a child or root names no node, when a scene's hierarchy is
/// cyclic, shared or too large, or when the scene to give does not exist.
pub fn plan_gltf_scenes(nodes: &Vec<SourceNode>, scenes: &Vec<Vec<usize>>, default_scene: Option<usize>) -> (res: Result<GltfScenePlan>)
    ensures
        res is Ok <==> {
            &&& document_ok(nodes@)
            &&& scene_roots_ok(nodes@.len(), scenes@)
            &&& forall|s: int| 0 <= s < scenes@.len() ==> (#[trigger] scene_layout_spec(nodes@, scenes@[s]@)) is Some
            &&& root_scene(default_scene) < scenes@.len()
        },
        res matches Ok(p) ==> {
            &&& p.layouts@.len() == scenes@.len()
            &&& p.root == root_scene(default_scene)
            &&& forall|s: int|
                0 <= s < scenes@.len() ==> (#[trigger] scene_layout_spec(nodes@, scenes@[s]@) matches Some(
                    v,
                ) && v.nodes == p.layouts@[s].nodes@ && v.instances == instance_views(
                    p.layouts@[s].instances@,
                ))
        },
        res matches Err(e) ==> e.kind == ErrorKind::Import,
{
    check_document(nodes)?;
    let mut layouts: Vec<SceneLayout> = Vec::new();
    let mut s: usize = 0;
    while s < scenes.len()
        invariant
            s <= scenes@.len(),
            document_ok(nodes@),
            layouts@.len() == s,
            forall|t: int, i: int|
                0 <= t < s && 0 <= i < scenes@[t]@.len() ==> #[trigger] scenes@[t]@[i] < nodes@.len(),
            forall|t: int|
                0 <= t < s ==> (#[trigger] scene_layout_spec(nodes@, scenes@[t]@) matches Some(v) && v.nodes
                    == layouts@[t].nodes@ && v.instances == instance_views(layouts@[t].instances@)),
        decreases scenes.len() - s,
    {
        let roots = &scenes[s];
        match check_roots(nodes.len(), roots) {
            Ok(()) => {},
            Err(e) => {
                assert(!scene_roots_ok(nodes@.len(), scenes@)) by {
                    let i = choose|i: int| 0 <= i < roots@.len() && !(roots@[i] < nodes@.len());
                    assert(scenes@[s as int]@[i] == roots@[i]);
                }
                return Err(e);
            },
        }
        let layout = match layout_scene(nodes, roots) {
            Ok(l) => l,
            Err(e) => {
                assert(scene_layout_spec(nodes@, scenes@[s as int]@) is None);
                return Err(e);
            },
        };
        layouts.push(layout);
        s = s + 1;
    }
    let root = match default_scene {
        Some(d) => d,
        None => 0,
    };
    if root >= scenes.len() {
        return Err(AssetError::new(ErrorKind::Import, "glTF document contains no scene"));
    }
    Ok(GltfScenePlan { layouts, root })
}

} // verus!
