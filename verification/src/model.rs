//! Conversion of an imported scene graph into the engine's model structures.
//!
//! The importer hands over a scene as plain data: an optional mesh list and a
//! node tree, each part optional where the source file may lack it.  The
//! conversion is generic in the scalar type `S` carried by vertex data and
//! transforms: the logic only rearranges scalars, so nothing about them is
//! assumed.

use vstd::prelude::*;

verus! {

/// Errors of the asset conversions.
#[derive(Debug, Clone, Copy, PartialEq, Eq, Structural)]
pub enum AssetError {
    /// The source data lacks a part this conversion requires.
    UnsupportedFormat,
}

pub type AssetResult<T> = Result<T, AssetError>;

/// A three-component vector of the imported data.
#[derive(Debug, Clone, Copy, PartialEq, Eq, Structural)]
pub struct Vector3<S> {
    pub x: S,
    pub y: S,
    pub z: S,
}

/// A point in space.
#[derive(Debug, Clone, Copy, PartialEq, Eq, Structural)]
pub struct Point3<S> {
    pub x: S,
    pub y: S,
    pub z: S,
}

/// A two-component texture coordinate.
#[derive(Debug, Clone, Copy, PartialEq, Eq, Structural)]
pub struct TexCoord<S> {
    pub u: S,
    pub v: S,
}

impl<S> TexCoord<S> {
    pub fn new(u: S, v: S) -> (r: TexCoord<S>)
        ensures
            r == (TexCoord { u, v }),
    {
        TexCoord { u, v }
    }
}

/// A 4x4 transform matrix in row-major order.
#[derive(Debug, Clone, Copy, PartialEq, Eq, Structural)]
pub struct Matrix4<S> {
    pub entries: [S; 16],
}

/// A mesh as the importer exposes it; any part may be missing.
#[derive(Debug)]
pub struct SourceMesh<S> {
    pub vertices: Option<Vec<Vector3<S>>>,
    pub normals: Option<Vec<Vector3<S>>>,
    pub uv0: Option<Vec<Vector3<S>>>,
    pub indices: Option<Vec<u32>>,
}

/// A node of the imported scene tree.
#[derive(Debug)]
pub struct SourceNode<S> {
    pub name: String,
    pub meshes: Option<Vec<u32>>,
    pub transformation: Matrix4<S>,
    pub children: Option<Vec<SourceNode<S>>>,
}

/// An imported scene: an optional mesh list and the root of the node tree.
#[derive(Debug)]
pub struct SourceScene<S> {
    pub meshes: Option<Vec<SourceMesh<S>>>,
    pub root: SourceNode<S>,
}

/// How a mesh's vertices form primitives.
#[derive(Debug, Clone, Copy, PartialEq, Eq, Structural)]
pub enum MeshPrimitive {
    /// Every three indices or vertices form one triangle.
    Triangles,
}

/// Discrete vertex attributes of a converted mesh.
#[derive(Debug)]
pub struct Vertices<S> {
    pub positions: Vec<Point3<S>>,
    pub normals: Option<Vec<Vector3<S>>>,
    pub uvs: Option<Vec<TexCoord<S>>>,
}

/// Vertex storage of a converted mesh.
#[derive(Debug)]
pub enum MeshVertices<S> {
    Discrete(Vertices<S>),
}

/// A converted mesh.
#[derive(Debug)]
pub struct Mesh<S> {
    pub vertices: MeshVertices<S>,
    pub indices: Option<Vec<u32>>,
    pub materials: Vec<u32>,
    pub primitive: MeshPrimitive,
}

/// A node transform.
#[derive(Debug, Clone, Copy, PartialEq, Eq, Structural)]
pub enum Transform<S> {
    Matrix(Matrix4<S>),
}

/// A converted scene-tree node.
#[derive(Debug)]
pub struct Node<S> {
    pub name: String,
    pub meshes: Vec<u32>,
    pub transforms: Vec<Transform<S>>,
    pub children: Vec<Node<S>>,
}

/// A converted model: meshes, the node tree, and the (initially empty)
/// material list.
#[derive(Debug)]
pub struct Model<S> {
    pub meshes: Vec<Mesh<S>>,
    pub root: Node<S>,
    pub materials: Vec<u32>,
}

/// The point a source vector converts to.
pub open spec fn spec_point<S>(v: Vector3<S>) -> Point3<S> {
    Point3 { x: v.x, y: v.y, z: v.z }
}

/// The texture coordinate a source vector converts to: its first two
/// components.
pub open spec fn spec_texcoord<S>(v: Vector3<S>) -> TexCoord<S> {
    TexCoord { u: v.x, v: v.y }
}

/// A mesh converts if and only if it has vertex positions.
pub open spec fn mesh_convertible<S>(m: SourceMesh<S>) -> bool {
    m.vertices is Some
}

/// A scene converts if and only if it has a mesh list and every mesh in it
/// converts.
pub open spec fn scene_convertible<S>(s: SourceScene<S>) -> bool {
    &&& s.meshes is Some
    &&& forall|i: int|
        0 <= i < s.meshes.unwrap()@.len() ==> mesh_convertible(#[trigger] s.meshes.unwrap()@[i])
}

/// `out` is the conversion of `m`: positions become points, normals carry
/// over, the first texture channel drops to two components, indices carry
/// over, and the mesh is a triangle mesh with no materials.
pub open spec fn mesh_converted<S>(m: SourceMesh<S>, out: Mesh<S>) -> bool {
    &&& mesh_convertible(m)
    &&& out.vertices matches MeshVertices::Discrete(vx) && {
        &&& vx.positions@ == m.vertices.unwrap()@.map_values(|p: Vector3<S>| spec_point(p))
        &&& match m.normals {
            Some(ns) => vx.normals matches Some(on) && on@ == ns@,
            None => vx.normals is None,
        }
        &&& match m.uv0 {
            Some(us) => vx.uvs matches Some(ou) && ou@ == us@.map_values(
                |v: Vector3<S>| spec_texcoord(v),
            ),
            None => vx.uvs is None,
        }
    }
    &&& match m.indices {
        Some(src) => out.indices matches Some(oi) && oi@ == src@,
        None => out.indices is None,
    }
    &&& out.materials@.len() == 0
    &&& out.primitive == MeshPrimitive::Triangles
}

/// `out` is the conversion of `n`: same name, mesh indices (empty if the
/// source had none), exactly one matrix transform, and children converted
/// in order.
pub open spec fn node_converted<S>(n: SourceNode<S>, out: Node<S>) -> bool
    decreases n,
{
    &&& out.name == n.name
    &&& match n.meshes {
        Some(ms) => out.meshes@ == ms@,
        None => out.meshes@.len() == 0,
    }
    &&& out.transforms@ =~= seq![Transform::Matrix(n.transformation)]
    &&& match n.children {
        Some(cs) => {
            &&& out.children@.len() == cs@.len()
            &&& forall|i: int|
                0 <= i < cs@.len() ==> node_converted(#[trigger] cs@[i], out.children@[i])
        },
        None => out.children@.len() == 0,
    }
}

/// Converts one imported mesh; fails exactly when the mesh has no vertex
/// positions.
fn assimp_mesh_to_mesh<S: Copy>(mesh: SourceMesh<S>) -> (r: AssetResult<Mesh<S>>)
    ensures
        r is Ok <==> mesh_convertible(mesh),
        r matches Ok(out) ==> mesh_converted(mesh, out),
        !mesh_convertible(mesh) ==> r == Err::<Mesh<S>, AssetError>(AssetError::UnsupportedFormat),
{
    let raw_positions = match mesh.vertices {
        Some(ps) => ps,
        None => {
            return Err(AssetError::UnsupportedFormat);
        },
    };
    let mut positions: Vec<Point3<S>> = Vec::new();
    let mut k: usize = 0;
    while k < raw_positions.len()
        invariant
            k <= raw_positions@.len(),
            positions@.len() == k,
            forall|i: int| 0 <= i < k ==> positions@[i] == spec_point(#[trigger] raw_positions@[i]),
        decreases raw_positions@.len() - k,
    {
        let p = raw_positions[k];
        positions.push(Point3 { x: p.x, y: p.y, z: p.z });
        k = k + 1;
    }
    proof {
        assert(positions@ =~= raw_positions@.map_values(|p: Vector3<S>| spec_point(p)));
    }
    let normals = mesh.normals;
    let uvs = match mesh.uv0 {
        Some(raw_uvs) => {
            let mut out_uvs: Vec<TexCoord<S>> = Vec::new();
            let mut k2: usize = 0;
            while k2 < raw_uvs.len()
                invariant
                    k2 <= raw_uvs@.len(),
                    out_uvs@.len() == k2,
                    forall|i: int|
                        0 <= i < k2 ==> out_uvs@[i] == spec_texcoord(#[trigger] raw_uvs@[i]),
                decreases raw_uvs@.len() - k2,
            {
                let uv = raw_uvs[k2];
                out_uvs.push(TexCoord::new(uv.x, uv.y));
                k2 = k2 + 1;
            }
            proof {
                assert(out_uvs@ =~= raw_uvs@.map_values(|v: Vector3<S>| spec_texcoord(v)));
            }
            Some(out_uvs)
        },
        None => None,
    };
    Ok(
        Mesh {
            vertices: MeshVertices::Discrete(Vertices { positions, normals, uvs }),
            indices: mesh.indices,
            materials: Vec::new(),
            primitive: MeshPrimitive::Triangles,
        },
    )
}

/// Converts one imported scene node and, recursively, its children.
#[verifier::loop_isolation(false)]
pub fn assimp_node_to_node<S: Copy>(node: SourceNode<S>) -> (r: AssetResult<Node<S>>)
    ensures
        r matches Ok(out) && node_converted(node, out),
    decreases node,
{
    let ghost gnode = node;
    let mut children: Vec<Node<S>> = Vec::new();
    let node_meshes = node.meshes;
    let node_name = node.name;
    let node_transformation = node.transformation;
    match node.children {
        Some(raw_children) => {
            let ghost orig = raw_children@;
            proof {
                assert(orig == gnode.children.unwrap()@);
            }
            let mut rest = raw_children;
            while rest.len() > 0
                invariant
                    children@.len() + rest@.len() == orig.len(),
                    rest@ =~= orig.skip(children@.len() as int),
                    forall|i: int|
                        0 <= i < children@.len() ==> node_converted(
                            #[trigger] orig[i],
                            children@[i],
                        ),
                decreases rest@.len(),
            {
                let child = rest.remove(0);
                proof {
                    assert(child == orig[children@.len() as int]);
                    assert(decreases_to!(gnode => gnode.children));
                    assert(decreases_to!(gnode.children => gnode.children.unwrap()));
                    assert(decreases_to!(gnode.children.unwrap() => orig));
                    assert(decreases_to!(orig => child));
                }
                let converted = match assimp_node_to_node(child) {
                    Ok(c) => c,
                    Err(e) => {
                        return Err(e);
                    },
                };
                children.push(converted);
            }
        },
        None => {},
    }
    let mut transforms: Vec<Transform<S>> = Vec::new();
    transforms.push(Transform::Matrix(node_transformation));
    let meshes = match node_meshes {
        Some(ms) => ms,
        None => Vec::new(),
    };
    let out = Node { name: node_name, meshes, transforms, children };
    proof {
        assert(node_converted(gnode, out));
    }
    Ok(out)
}

/// Converts an imported scene into a model: every mesh is converted in
/// order, the node tree is converted from the root, and the material list
/// starts empty.  Fails exactly when the scene has no mesh list or a mesh
/// has no vertex positions.
#[verifier::loop_isolation(false)]
pub fn scene_to_model<S: Copy>(scene: SourceScene<S>) -> (r: AssetResult<Model<S>>)
    ensures
        r is Ok <==> scene_convertible(scene),
        r matches Ok(model) ==> {
            &&& model.meshes@.len() == scene.meshes.unwrap()@.len()
            &&& forall|i: int|
                0 <= i < model.meshes@.len() ==> mesh_converted(
                    #[trigger] scene.meshes.unwrap()@[i],
                    model.meshes@[i],
                )
            &&& node_converted(scene.root, model.root)
            &&& model.materials@.len() == 0
        },
        !scene_convertible(scene) ==> r == Err::<Model<S>, AssetError>(
            AssetError::UnsupportedFormat,
        ),
{
    let raw_meshes = match scene.meshes {
        Some(ms) => ms,
        None => {
            return Err(AssetError::UnsupportedFormat);
        },
    };
    let ghost orig = raw_meshes@;
    proof {
        assert(orig == scene.meshes.unwrap()@);
    }
    let mut meshes: Vec<Mesh<S>> = Vec::new();
    let mut rest = raw_meshes;
    while rest.len() > 0
        invariant
            meshes@.len() + rest@.len() == orig.len(),
            rest@ =~= orig.skip(meshes@.len() as int),
            forall|i: int|
                0 <= i < meshes@.len() ==> mesh_converted(#[trigger] orig[i], meshes@[i]),
        decreases rest@.len(),
    {
        let raw_mesh = rest.remove(0);
        proof {
            assert(raw_mesh == orig[meshes@.len() as int]);
        }
        let ghost k: int = meshes@.len() as int;
        let converted = match assimp_mesh_to_mesh(raw_mesh) {
            Ok(m) => m,
            Err(e) => {
                proof {
                    assert(!mesh_convertible(scene.meshes.unwrap()@[k]));
                    assert(!scene_convertible(scene));
                }
                return Err(e);
            },
        };
        meshes.push(converted);
    }
    let root = match assimp_node_to_node(scene.root) {
        Ok(n) => n,
        Err(e) => {
            return Err(e);
        },
    };
    Ok(Model { meshes, root, materials: Vec::new() })
}

} // verus!
