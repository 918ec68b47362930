use combustion::material::{MaterialShader, RenderMethod};
use combustion::model::{
    assimp_node_to_node, scene_to_model, AssetError, Matrix4, MeshPrimitive, MeshVertices,
    Point3, SourceMesh, SourceNode, SourceScene, TexCoord, Vector3,
};

fn v3(x: u32, y: u32, z: u32) -> Vector3<u32> {
    Vector3 { x, y, z }
}

fn identityish() -> Matrix4<u32> {
    Matrix4 { entries: [7; 16] }
}

fn leaf(name: &str, meshes: Option<Vec<u32>>) -> SourceNode<u32> {
    SourceNode {
        name: name.to_string(),
        meshes,
        transformation: identityish(),
        children: None,
    }
}

#[test]
fn scene_without_meshes_is_unsupported() {
    let scene: SourceScene<u32> = SourceScene { meshes: None, root: leaf("root", None) };
    assert_eq!(scene_to_model(scene).unwrap_err(), AssetError::UnsupportedFormat);
}

#[test]
fn mesh_without_positions_is_unsupported() {
    let mesh = SourceMesh { vertices: None, normals: None, uv0: None, indices: None };
    let scene: SourceScene<u32> =
        SourceScene { meshes: Some(vec![mesh]), root: leaf("root", None) };
    assert_eq!(scene_to_model(scene).unwrap_err(), AssetError::UnsupportedFormat);
}

#[test]
fn mesh_conversion_is_exact() {
    let mesh = SourceMesh {
        vertices: Some(vec![v3(1, 2, 3), v3(4, 5, 6)]),
        normals: Some(vec![v3(9, 9, 9), v3(8, 8, 8)]),
        uv0: Some(vec![v3(10, 11, 12), v3(13, 14, 15)]),
        indices: Some(vec![0, 1, 0]),
    };
    let scene = SourceScene { meshes: Some(vec![mesh]), root: leaf("root", None) };
    let model = scene_to_model(scene).unwrap();

    assert_eq!(model.meshes.len(), 1);
    assert_eq!(model.materials.len(), 0);
    let out = &model.meshes[0];
    assert_eq!(out.primitive, MeshPrimitive::Triangles);
    assert_eq!(out.materials.len(), 0);
    assert_eq!(out.indices, Some(vec![0, 1, 0]));
    let MeshVertices::Discrete(vx) = &out.vertices;
    assert_eq!(
        vx.positions,
        vec![Point3 { x: 1, y: 2, z: 3 }, Point3 { x: 4, y: 5, z: 6 }]
    );
    assert_eq!(vx.normals, Some(vec![v3(9, 9, 9), v3(8, 8, 8)]));
    // Texture coordinates keep only the first two components.
    assert_eq!(
        vx.uvs,
        Some(vec![TexCoord { u: 10, v: 11 }, TexCoord { u: 13, v: 14 }])
    );
}

#[test]
fn optional_mesh_parts_stay_absent() {
    let mesh = SourceMesh {
        vertices: Some(vec![v3(1, 1, 1)]),
        normals: None,
        uv0: None,
        indices: None,
    };
    let scene = SourceScene { meshes: Some(vec![mesh]), root: leaf("root", None) };
    let model = scene_to_model(scene).unwrap();
    let MeshVertices::Discrete(vx) = &model.meshes[0].vertices;
    assert_eq!(vx.normals, None);
    assert_eq!(vx.uvs, None);
    assert_eq!(model.meshes[0].indices, None);
}

#[test]
fn node_tree_conversion() {
    let child_a = leaf("child_a", Some(vec![0, 2]));
    let child_b = leaf("child_b", None);
    let root = SourceNode {
        name: "scene_root".to_string(),
        meshes: None,
        transformation: identityish(),
        children: Some(vec![child_a, child_b]),
    };
    let out = assimp_node_to_node::<u32>(root).unwrap();
    assert_eq!(out.name, "scene_root");
    // A node without mesh indices gets an empty list.
    assert_eq!(out.meshes.len(), 0);
    assert_eq!(out.transforms.len(), 1);
    assert_eq!(out.children.len(), 2);
    assert_eq!(out.children[0].name, "child_a");
    assert_eq!(out.children[0].meshes, vec![0, 2]);
    assert_eq!(out.children[0].children.len(), 0);
    assert_eq!(out.children[1].name, "child_b");
}

#[test]
fn material_enums() {
    let m = RenderMethod::Forward;
    assert_eq!(m, RenderMethod::Forward);
    assert_ne!(m, RenderMethod::Deferred);
    let s = MaterialShader::Uber;
    assert_eq!(s.clone(), MaterialShader::Uber);
    assert_ne!(MaterialShader::Glass, MaterialShader::Matte);
}
