use vstd::prelude::*;
use crate::error::{AssetError, ErrorKind, Result};
use crate::gltf::{mesh_label, material_label, mesh_label_spec, material_label_spec};

verus! {

/// The deepest node hierarchy a scene import follows.
pub const MAX_NODE_DEPTH: usize = 128;

/// The most nodes an imported scene may have.
pub const MAX_SCENE_NODES: usize = 65536;

/// Triangle indices a mesh may hold: at least one triangle, whole triangles
/// only, each index naming one of the vertices.
pub open spec fn triangles_valid(vertices: nat, indices: Seq<u32>) -> bool {
    vertices > 0 && indices.len() > 0 && indices.len() % 3 == 0 && forall|i: int|
        0 <= i < indices.len() ==> (#[trigger] indices[i]) < vertices
}

/// Checks a mesh's topology: vertices present, and indices that form whole
/// triangles over them.
pub fn check_triangles(vertices: usize, indices: &Vec<u32>) -> (res: Result<()>)
    ensures
        res is Ok <==> triangles_valid(vertices as nat, indices@),
        res matches Err(e) ==> e.kind == ErrorKind::InvalidData,
{
    let mut ok = vertices > 0 && indices.len() > 0 && indices.len() % 3 == 0;
    let mut i: usize = 0;
    while i < indices.len()
        invariant
            i <= indices@.len(),
            ok == (vertices > 0 && indices@.len() > 0 && indices@.len() % 3 == 0 && forall|j: int|
                0 <= j < i ==> (#[trigger] indices@[j]) < vertices),
        decreases indices.len() - i,
    {
        if indices[i] as usize >= vertices {
            ok = false;
        }
        i = i + 1;
    }
    if !ok {
        return Err(AssetError::new(ErrorKind::InvalidData, "invalid triangle mesh"));
    }
    Ok(())
}

/// A vertex format meshes can be cooked with: the type key its meshes are
/// registered under, their schema version, and which vertices are usable.
pub trait VertexLayout {
    fn mesh_type_key() -> &'static str;

    fn mesh_schema_version() -> (v: u32)
        default_ensures
            v == 2,
    {
        2
    }

    fn valid(&self) -> (b: bool)
        default_ensures
            b,
    {
        true
    }
}

/// Every node's parent comes before it.
pub open spec fn hierarchy_ok(parents: Seq<Option<usize>>) -> bool {
    forall|i: int| 0 <= i < parents.len() ==> (#[trigger] parents[i] matches Some(p) ==> p < i)
}

/// Every instance is placed on an existing node.
pub open spec fn instances_ok(nodes: nat, instance_nodes: Seq<usize>) -> bool {
    forall|i: int| 0 <= i < instance_nodes.len() ==> (#[trigger] instance_nodes[i]) < nodes
}

/// Checks a scene's structure: parents before children, instances on nodes.
pub fn check_scene(parents: &Vec<Option<usize>>, instance_nodes: &Vec<usize>) -> (res: Result<()>)
    ensures
        res is Ok <==> hierarchy_ok(parents@) && instances_ok(parents@.len(), instance_nodes@),
        res matches Err(e) ==> e.kind == ErrorKind::InvalidData,
{
    let mut i: usize = 0;
    while i < parents.len()
        invariant
            i <= parents@.len(),
            forall|j: int| 0 <= j < i ==> (#[trigger] parents@[j] matches Some(p) ==> p < j),
        decreases parents.len() - i,
    {
        match parents[i] {
            Some(p) => {
                if p >= i {
                    return Err(
                        AssetError::new(ErrorKind::InvalidData, "invalid scene hierarchy or transform"),
                    );
                }
            },
            None => {},
        }
        i = i + 1;
    }
    let mut k: usize = 0;
    while k < instance_nodes.len()
        invariant
            k <= instance_nodes@.len(),
            hierarchy_ok(parents@),
            forall|j: int| 0 <= j < k ==> (#[trigger] instance_nodes@[j]) < parents@.len(),
        decreases instance_nodes.len() - k,
    {
        if instance_nodes[k] >= parents.len() {
            return Err(AssetError::new(ErrorKind::InvalidData, "invalid mesh instance"));
        }
        k = k + 1;
    }
    Ok(())
}

/// A node of a source document: its children, and the mesh it shows with
/// the material of each of the mesh's primitives.
#[derive(Debug)]
pub struct SourceNode {
    pub children: Vec<usize>,
    pub mesh: Option<SourceMesh>,
}

#[derive(Debug)]
pub struct SourceMesh {
    pub index: usize,
    pub materials: Vec<Option<usize>>,
}

/// A node placed in an imported scene: the document node it came from and
/// the position of its parent.
#[derive(Debug, Clone, Copy, PartialEq, Eq, Structural)]
pub struct PlacedNode {
    pub source_index: usize,
    pub parent: Option<usize>,
}

/// A mesh primitive placed on a node, by the labels of its mesh and material.
#[derive(Debug)]
pub struct PlacedInstance {
    pub node: usize,
    pub mesh: String,
    pub material: String,
}

/// What an imported scene is made of, before transforms are applied.
#[derive(Debug)]
pub struct SceneLayout {
    pub nodes: Vec<PlacedNode>,
    pub instances: Vec<PlacedInstance>,
}

pub open spec fn parents_of(nodes: Seq<PlacedNode>) -> Seq<Option<usize>> {
    Seq::new(nodes.len(), |i: int| nodes[i].parent)
}

/// Every child a document lists is one of its nodes.
pub open spec fn document_ok(doc: Seq<SourceNode>) -> bool {
    forall|i: int, j: int|
        0 <= i < doc.len() && 0 <= j < doc[i].children@.len() ==> #[trigger] doc[i].children@[j]
            < doc.len()
}

/// What every layout under construction satisfies: parents before children,
/// nodes from the document, each document node placed at most once, and
/// instances on placed nodes.
pub open spec fn layout_ok(layout: &SceneLayout, visited: Seq<bool>, doc_len: nat) -> bool {
    &&& visited.len() == doc_len
    &&& hierarchy_ok(parents_of(layout.nodes@))
    &&& forall|i: int|
        0 <= i < layout.nodes@.len() ==> (#[trigger] layout.nodes@[i]).source_index < doc_len
            && visited[layout.nodes@[i].source_index as int]
    &&& forall|i: int, j: int|
        0 <= i < j < layout.nodes@.len() ==> (#[trigger] layout.nodes@[i]).source_index != (
        #[trigger] layout.nodes@[j]).source_index
    &&& instances_ok(layout.nodes@.len(), Seq::new(layout.instances@.len(), |i: int| layout.instances@[i].node))
    &&& layout.nodes@.len() <= MAX_SCENE_NODES
}

/// A layout under construction as plain values: the nodes placed, each
/// instance as its node and the labels of its mesh and material, and which
/// document nodes have been reached.
#[verifier::ext_equal]
pub struct PlacementView {
    pub nodes: Seq<PlacedNode>,
    pub instances: Seq<(usize, Seq<char>, Seq<char>)>,
    pub visited: Seq<bool>,
}

pub open spec fn instance_views(instances: Seq<PlacedInstance>) -> Seq<(usize, Seq<char>, Seq<char>)> {
    Seq::new(instances.len(), |i: int| (instances[i].node, instances[i].mesh@, instances[i].material@))
}

pub open spec fn placement_of(layout: &SceneLayout, visited: Seq<bool>) -> PlacementView {
    PlacementView { nodes: layout.nodes@, instances: instance_views(layout.instances@), visited }
}

/// The instances a node placed at `index` adds: one for each primitive of its
/// mesh, in order.
pub open spec fn node_instances(index: usize, node: SourceNode) -> Seq<(usize, Seq<char>, Seq<char>)> {
    match node.mesh {
        Some(m) => Seq::new(
            m.materials@.len(),
            |p: int| (index, mesh_label_spec(m.index as nat, p as nat), material_label_spec(m.materials@[p])),
        ),
        None => Seq::empty(),
    }
}

/// Placing `node` under `parent` with `budget` levels of depth left: the node
/// goes last, then its instances, then its children in order, each with one
/// level less. `None` when a level runs out, a node is reached twice, or the
/// scene is full.
pub open spec fn place_spec(
    doc: Seq<SourceNode>,
    node: usize,
    parent: Option<usize>,
    budget: nat,
    st: PlacementView,
) -> Option<PlacementView>
    decreases budget, 1int, 0int,
{
    if budget == 0 || st.visited[node as int] || st.nodes.len() >= MAX_SCENE_NODES {
        None
    } else {
        let index = st.nodes.len() as usize;
        let placed = PlacementView {
            nodes: st.nodes.push(PlacedNode { source_index: node, parent }),
            instances: st.instances + node_instances(index, doc[node as int]),
            visited: st.visited.update(node as int, true),
        };
        place_children_spec(doc, doc[node as int].children@, index, budget, placed)
    }
}

/// Placing `children` in order under the node at `parent`.
pub open spec fn place_children_spec(
    doc: Seq<SourceNode>,
    children: Seq<usize>,
    parent: usize,
    budget: nat,
    st: PlacementView,
) -> Option<PlacementView>
    decreases budget, 0int, children.len(),
{
    if children.len() == 0 {
        Some(st)
    } else if budget == 0 {
        None
    } else {
        match place_spec(doc, children[0], Some(parent), (budget - 1) as nat, st) {
            Some(next) => place_children_spec(doc, children.drop_first(), parent, budget, next),
            None => None,
        }
    }
}

/// Placing each of `roots` in order as a top-level node.
pub open spec fn place_roots_spec(doc: Seq<SourceNode>, roots: Seq<usize>, st: PlacementView) -> Option<
    PlacementView,
>
    decreases roots.len(),
{
    if roots.len() == 0 {
        Some(st)
    } else {
        match place_spec(doc, roots[0], None, MAX_NODE_DEPTH as nat, st) {
            Some(next) => place_roots_spec(doc, roots.drop_first(), next),
            None => None,
        }
    }
}

/// The layout of a scene with the given roots, from an empty one.
pub open spec fn scene_layout_spec(doc: Seq<SourceNode>, roots: Seq<usize>) -> Option<PlacementView> {
    place_roots_spec(
        doc,
        roots,
        PlacementView {
            nodes: Seq::empty(),
            instances: Seq::empty(),
            visited: Seq::new(doc.len(), |i: int| false),
        },
    )
}

/// Checks that every child a document lists is one of its nodes.
pub fn check_document(doc: &Vec<SourceNode>) -> (res: Result<()>)
    ensures
        res is Ok <==> document_ok(doc@),
        res matches Err(e) ==> e.kind == ErrorKind::Import && e.message@
            == "glTF node has an invalid child"@,
{
    proof {
        reveal_strlit("glTF node has an invalid child");
    }
    let mut i: usize = 0;
    while i < doc.len()
        invariant
            i <= doc@.len(),
            forall|a: int, j: int|
                0 <= a < i && 0 <= j < doc@[a].children@.len() ==> #[trigger] doc@[a].children@[j]
                    < doc@.len(),
        decreases doc.len() - i,
    {
        let children = &doc[i].children;
        let mut j: usize = 0;
        while j < children.len()
            invariant
                i < doc@.len(),
                j <= children@.len(),
                children@ == doc@[i as int].children@,
                forall|a: int, k: int|
                    0 <= a < i && 0 <= k < doc@[a].children@.len() ==> #[trigger] doc@[a].children@[k]
                        < doc@.len(),
                forall|k: int| 0 <= k < j ==> #[trigger] children@[k] < doc@.len(),
            decreases children.len() - j,
        {
            if children[j] >= doc.len() {
                return Err(AssetError::new(ErrorKind::Import, "glTF node has an invalid child"));
            }
            j = j + 1;
        }
        i = i + 1;
    }
    Ok(())
}

/// Checks that every root of a scene is one of the document's nodes.
pub fn check_roots(nodes: usize, roots: &Vec<usize>) -> (res: Result<()>)
    ensures
        res is Ok <==> forall|i: int| 0 <= i < roots@.len() ==> #[trigger] roots@[i] < nodes,
        res matches Err(e) ==> e.kind == ErrorKind::Import && e.message@
            == "glTF scene has an invalid root node"@,
{
    proof {
        reveal_strlit("glTF scene has an invalid root node");
    }
    let mut i: usize = 0;
    while i < roots.len()
        invariant
            i <= roots@.len(),
            forall|k: int| 0 <= k < i ==> #[trigger] roots@[k] < nodes,
        decreases roots.len() - i,
    {
        if roots[i] >= nodes {
            return Err(AssetError::new(ErrorKind::Import, "glTF scene has an invalid root node"));
        }
        i = i + 1;
    }
    Ok(())
}

/// Checks that a mesh has one tangent per vertex.
pub fn check_tangent_count(vertices: usize, tangents: usize) -> (res: Result<()>)
    ensures
        res is Ok <==> tangents == vertices,
        res matches Err(e) ==> e.kind == ErrorKind::Import && e.message@ == "glTF tangent count mismatch"@,
{
    proof {
        reveal_strlit("glTF tangent count mismatch");
    }
    if tangents != vertices {
        return Err(AssetError::new(ErrorKind::Import, "glTF tangent count mismatch"));
    }
    Ok(())
}

/// Checks that a mesh has one normal per vertex.
pub fn check_normal_count(vertices: usize, normals: usize) -> (res: Result<()>)
    ensures
        res is Ok <==> normals == vertices,
        res matches Err(e) ==> e.kind == ErrorKind::Import && e.message@ == "glTF normal count mismatch"@,
{
    proof {
        reveal_strlit("glTF normal count mismatch");
    }
    if normals != vertices {
        return Err(AssetError::new(ErrorKind::Import, "glTF normal count mismatch"));
    }
    Ok(())
}

fn hierarchy_error() -> (e: AssetError)
    ensures
        e.kind == ErrorKind::Import,
{
    AssetError::new(ErrorKind::Import, "glTF hierarchy is cyclic, shared, or too large")
}

/// Places a document node and, depth first, its children under it, with an
/// instance for each primitive of its mesh. Refused when the hierarchy is
/// deeper than `MAX_NODE_DEPTH`, reaches a node twice, or grows past
/// `MAX_SCENE_NODES` nodes.
pub fn place_node(
    doc: &Vec<SourceNode>,
    node: usize,
    parent: Option<usize>,
    depth: usize,
    layout: &mut SceneLayout,
    visited: &mut Vec<bool>,
) -> (res: Result<()>)
    requires
        node < doc@.len(),
        depth <= MAX_NODE_DEPTH,
        document_ok(doc@),
        layout_ok(old(layout), old(visited)@, doc@.len()),
        parent matches Some(p) ==> p < old(layout).nodes@.len(),
    ensures
        layout_ok(final(layout), final(visited)@, doc@.len()),
        final(layout).nodes@.len() >= old(layout).nodes@.len(),
        final(layout).nodes@.take(old(layout).nodes@.len() as int) == old(layout).nodes@,
        forall|i: int| 0 <= i < doc@.len() && old(visited)@[i] ==> #[trigger] final(visited)@[i],
        res is Ok <==> place_spec(
            doc@,
            node,
            parent,
            (MAX_NODE_DEPTH - depth) as nat,
            placement_of(old(layout), old(visited)@),
        ) is Some,
        res is Ok ==> place_spec(
            doc@,
            node,
            parent,
            (MAX_NODE_DEPTH - depth) as nat,
            placement_of(old(layout), old(visited)@),
        ) == Some(placement_of(final(layout), final(visited)@)),
        res is Ok ==> final(layout).nodes@.len() > old(layout).nodes@.len()
            && final(layout).nodes@[old(layout).nodes@.len() as int] == (PlacedNode {
            source_index: node,
            parent,
        }),
        res matches Err(e) ==> e.kind == ErrorKind::Import,
    decreases MAX_NODE_DEPTH - depth,
{
    if depth >= MAX_NODE_DEPTH || visited[node] || layout.nodes.len() >= MAX_SCENE_NODES {
        return Err(hierarchy_error());
    }
    let ghost budget: nat = (MAX_NODE_DEPTH - depth) as nat;
    let ghost start_view = placement_of(layout, visited@);
    let index = layout.nodes.len();
    let ghost start = layout.nodes@;
    let ghost inst0 = instance_views(layout.instances@);
    let ghost placed = PlacementView {
        nodes: start.push(PlacedNode { source_index: node, parent }),
        instances: inst0 + node_instances(index, doc@[node as int]),
        visited: old(visited)@.update(node as int, true),
    };
    assert(place_spec(doc@, node, parent, budget, start_view) == place_children_spec(
        doc@,
        doc@[node as int].children@,
        index,
        budget,
        placed,
    ));
    visited.set(node, true);
    layout.nodes.push(PlacedNode { source_index: node, parent });
    proof {
        assert(parents_of(layout.nodes@) =~= parents_of(start).push(parent));
        assert forall|i: int, j: int|
            0 <= i < j < layout.nodes@.len() implies (#[trigger] layout.nodes@[i]).source_index != (
            #[trigger] layout.nodes@[j]).source_index by {
            if j == start.len() {
                assert(layout.nodes@[i] == start[i]);
                assert(old(visited)@[start[i].source_index as int]);
            } else {
                assert(layout.nodes@[i] == start[i] && layout.nodes@[j] == start[j]);
            }
        }
        assert forall|i: int| 0 <= i < layout.nodes@.len() implies (
        #[trigger] layout.nodes@[i]).source_index < doc@.len()
            && visited@[layout.nodes@[i].source_index as int] by {
            if i < start.len() {
                assert(layout.nodes@[i] == start[i]);
            }
        }
        assert(Seq::new(layout.instances@.len(), |i: int| layout.instances@[i].node) =~= Seq::new(
            old(layout).instances@.len(),
            |i: int| old(layout).instances@[i].node,
        ));
    }
    match &doc[node].mesh {
        Some(mesh) => {
            let mut p: usize = 0;
            while p < mesh.materials.len()
                invariant
                    p <= mesh.materials@.len(),
                    doc@[node as int].mesh == Some(*mesh),
                    index < layout.nodes@.len(),
                    layout_ok(layout, visited@, doc@.len()),
                    layout.nodes@ == start.push(PlacedNode { source_index: node, parent }),
                    forall|i: int|
                        0 <= i < doc@.len() && old(visited)@[i] ==> #[trigger] visited@[i],
                    instance_views(layout.instances@) =~= inst0 + node_instances(
                        index,
                        doc@[node as int],
                    ).take(p as int),
                decreases mesh.materials.len() - p,
            {
                let ghost before = layout.instances@;
                let label = mesh_label(mesh.index, p);
                let material = material_label(mesh.materials[p]);
                layout.instances.push(PlacedInstance { node: index, mesh: label, material });
                proof {
                    let s = Seq::new(layout.instances@.len(), |i: int| layout.instances@[i].node);
                    assert forall|i: int| 0 <= i < s.len() implies (#[trigger] s[i])
                        < layout.nodes@.len() by {
                        if i < before.len() {
                            assert(layout.instances@[i] == before[i]);
                            let t = Seq::new(before.len(), |k: int| before[k].node);
                            assert(t[i] == before[i].node);
                        }
                    }
                    let all = node_instances(index, doc@[node as int]);
                    assert(all.take(p + 1) =~= all.take(p as int).push(all[p as int]));
                    assert(instance_views(layout.instances@) =~= instance_views(before).push(
                        (index, mesh_label_spec(mesh.index as nat, p as nat), material_label_spec(mesh.materials@[p as int])),
                    ));
                }
                p = p + 1;
            }
            proof {
                let all = node_instances(index, doc@[node as int]);
                assert(all.take(all.len() as int) =~= all);
            }
        },
        None => {
            assert(inst0 + node_instances(index, doc@[node as int]) =~= inst0);
        },
    }
    assert(visited@ =~= placed.visited);
    assert(placement_of(layout, visited@) =~= placed);
    let children = &doc[node].children;
    let mut k: usize = 0;
    assert(children@.skip(0) =~= children@);
    while k < children.len()
        invariant
            node < doc@.len(),
            children@ == doc@[node as int].children@,
            document_ok(doc@),
            depth < MAX_NODE_DEPTH,
            budget == MAX_NODE_DEPTH - depth,
            k <= children@.len(),
            index == start.len(),
            layout_ok(layout, visited@, doc@.len()),
            layout.nodes@.len() > index,
            layout.nodes@.take(index as int) == start,
            layout.nodes@[index as int] == (PlacedNode { source_index: node, parent }),
            forall|i: int| 0 <= i < doc@.len() && old(visited)@[i] ==> #[trigger] visited@[i],
            start == old(layout).nodes@,
            place_spec(doc@, node, parent, budget, placement_of(old(layout), old(visited)@))
                == place_children_spec(doc@, children@, index, budget, placed),
            place_children_spec(doc@, children@, index, budget, placed) == place_children_spec(
                doc@,
                children@.skip(k as int),
                index,
                budget,
                placement_of(layout, visited@),
            ),
        decreases children.len() - k,
    {
        let ghost mid = layout.nodes@;
        let ghost mid_visited = visited@;
        let ghost cur = placement_of(layout, visited@);
        assert(children@[k as int] < doc@.len());
        assert(children@.skip(k as int)[0] == children@[k as int]);
        match place_node(doc, children[k], Some(index), depth + 1, layout, visited) {
            Ok(()) => {},
            Err(e) => {
                assert(place_children_spec(doc@, children@.skip(k as int), index, budget, cur) is None);
                return Err(e);
            },
        }
        proof {
            assert(children@.skip(k as int).drop_first() =~= children@.skip(k + 1));
            assert(layout.nodes@.take(mid.len() as int) == mid);
            assert(layout.nodes@.take(index as int) =~= mid.take(index as int));
            assert(layout.nodes@[index as int] == mid[index as int]);
            assert forall|i: int| 0 <= i < doc@.len() && old(visited)@[i] implies #[trigger] visited@[i] by {
                assert(mid_visited[i]);
            }
        }
        k = k + 1;
    }
    proof {
        assert(layout.nodes@.take(start.len() as int) =~= start);
        assert(children@.skip(k as int) =~= Seq::<usize>::empty());
    }
    Ok(())
}

/// Lays out a scene from its root nodes: each root in order is placed as
/// `place_node` places it, starting from an empty layout in which no node has
/// been reached.
pub fn layout_scene(doc: &Vec<SourceNode>, roots: &Vec<usize>) -> (res: Result<SceneLayout>)
    requires
        document_ok(doc@),
        forall|i: int| 0 <= i < roots@.len() ==> #[trigger] roots@[i] < doc@.len(),
    ensures
        res is Ok <==> scene_layout_spec(doc@, roots@) is Some,
        res matches Ok(l) ==> (scene_layout_spec(doc@, roots@) matches Some(v) && v.nodes == l.nodes@
            && v.instances == instance_views(l.instances@)),
        res matches Ok(l) ==> hierarchy_ok(parents_of(l.nodes@)) && instances_ok(
            l.nodes@.len(),
            Seq::new(l.instances@.len(), |i: int| l.instances@[i].node),
        ) && l.nodes@.len() <= MAX_SCENE_NODES,
        res matches Err(e) ==> e.kind == ErrorKind::Import,
{
    let mut layout = SceneLayout { nodes: Vec::new(), instances: Vec::new() };
    let mut visited: Vec<bool> = Vec::new();
    let mut i: usize = 0;
    while i < doc.len()
        invariant
            i <= doc@.len(),
            visited@.len() == i,
            forall|j: int| 0 <= j < i ==> !#[trigger] visited@[j],
        decreases doc.len() - i,
    {
        visited.push(false);
        i = i + 1;
    }
    assert(parents_of(layout.nodes@) =~= Seq::<Option<usize>>::empty());
    assert(Seq::new(layout.instances@.len(), |i: int| layout.instances@[i].node) =~= Seq::<
        usize,
    >::empty());
    assert(placement_of(&layout, visited@) =~= PlacementView {
        nodes: Seq::empty(),
        instances: Seq::empty(),
        visited: Seq::new(doc@.len(), |i: int| false),
    });
    assert(roots@.skip(0) =~= roots@);
    let mut r: usize = 0;
    while r < roots.len()
        invariant
            r <= roots@.len(),
            document_ok(doc@),
            forall|i: int| 0 <= i < roots@.len() ==> #[trigger] roots@[i] < doc@.len(),
            layout_ok(&layout, visited@, doc@.len()),
            scene_layout_spec(doc@, roots@) == place_roots_spec(
                doc@,
                roots@.skip(r as int),
                placement_of(&layout, visited@),
            ),
        decreases roots.len() - r,
    {
        let ghost cur = placement_of(&layout, visited@);
        assert(roots@.skip(r as int)[0] == roots@[r as int]);
        match place_node(doc, roots[r], None, 0, &mut layout, &mut visited) {
            Ok(()) => {},
            Err(e) => {
                assert(place_roots_spec(doc@, roots@.skip(r as int), cur) is None);
                return Err(e);
            },
        }
        assert(roots@.skip(r as int).drop_first() =~= roots@.skip(r + 1));
        r = r + 1;
    }
    assert(roots@.skip(r as int) =~= Seq::<usize>::empty());
    Ok(layout)
}

/// A scene laid out from a document passes the scene check: its parents come
/// before their children and its instances sit on its nodes.
pub proof fn lemma_layout_passes_check(layout: &SceneLayout, visited: Seq<bool>, doc_len: nat)
    requires
        layout_ok(layout, visited, doc_len),
    ensures
        hierarchy_ok(parents_of(layout.nodes@)),
        instances_ok(
            parents_of(layout.nodes@).len(),
            Seq::new(layout.instances@.len(), |i: int| layout.instances@[i].node),
        ),
{
}

} // verus!
