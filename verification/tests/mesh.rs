use isotope::mesh::{Mesh, MeshError};

fn upload(label: &String, vertices: &Vec<i32>, indices: &Vec<u32>) -> (String, usize, usize) {
    (label.clone(), vertices.len(), indices.len())
}

#[test]
fn cpu_meshes_are_edited_then_buffered() {
    let mut mesh: Mesh<i32, (String, usize, usize)> =
        Mesh::Cpu { label: "quad".to_string(), vertices: vec![1, 2, 3], indices: vec![0, 1, 2] };
    assert_eq!(mesh.label(), "quad");
    assert_eq!(mesh.render(|_, n| n), None);
    assert_eq!(mesh.vertices(|v| {
        v.push(4);
        v.len()
    }).ok(), Some(4));
    assert_eq!(mesh.indices(|i| {
        i.extend([2, 3, 0]);
        i.len()
    }).ok(), Some(6));
    assert_eq!(mesh.vertices_indices(|v, i| v.len() + i.len()).ok(), Some(10));

    mesh.buffer(upload);
    assert_eq!(mesh.label(), "quad");
    assert_eq!(mesh.render(|gpu, n| (gpu.clone(), n)), Some((("quad".to_string(), 4, 6), 6)));
    assert_eq!(mesh.vertices(|v| v.len()).err(), Some(MeshError::OnGpu));
    assert_eq!(mesh.indices(|i| i.len()).err(), Some(MeshError::OnGpu));
    assert_eq!(mesh.vertices_indices(|v, i| v.len() + i.len()).err(), Some(MeshError::OnGpu));

    // buffering twice changes nothing
    mesh.buffer(|_, _, _| ("other".to_string(), 0, 0));
    assert_eq!(mesh.render(|gpu, n| (gpu.clone(), n)), Some((("quad".to_string(), 4, 6), 6)));
}

#[test]
fn new_meshes_are_on_the_gpu() {
    let mesh: Mesh<i32, (String, usize, usize)> = Mesh::new("tri".to_string(), vec![7, 8, 9], vec![0, 1, 2], upload);
    assert_eq!(mesh.render(|gpu, n| (gpu.clone(), n)), Some((("tri".to_string(), 3, 3), 3)));
}
