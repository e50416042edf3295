//! Meshes: geometry read on the CPU that is later handed to the GPU.
//!
//! A mesh starts with its vertices and indices on the CPU, where they can
//! be edited; buffering uploads them and keeps only what drawing needs. The
//! vertex type and the GPU side are left to the caller.
use vstd::prelude::*;

verus! {

/// Why a mesh refused an edit.
#[derive(Debug, PartialEq, Eq, Structural)]
pub enum MeshError {
    /// The mesh is on the GPU; its vertices and indices are no longer at hand.
    OnGpu,
}

/// A mesh on the CPU, or uploaded to the GPU as `G`.
pub enum Mesh<V, G> {
    Cpu { label: String, vertices: Vec<V>, indices: Vec<u32> },
    Gpu { gpu: G, label: String, num_indices: u32 },
}

impl<V, G> Mesh<V, G> {
    /// The label of the mesh.
    pub open spec fn spec_label(&self) -> Seq<char> {
        match self {
            Mesh::Cpu { label, .. } => label@,
            Mesh::Gpu { label, .. } => label@,
        }
    }

    /// The vertices of a mesh on the CPU; `None` once it is on the GPU.
    pub open spec fn cpu_vertices(&self) -> Option<Vec<V>> {
        match self {
            Mesh::Cpu { vertices, .. } => Some(*vertices),
            Mesh::Gpu { .. } => None,
        }
    }

    /// The indices of a mesh on the CPU; `None` once it is on the GPU.
    pub open spec fn cpu_indices(&self) -> Option<Vec<u32>> {
        match self {
            Mesh::Cpu { indices, .. } => Some(*indices),
            Mesh::Gpu { .. } => None,
        }
    }

    /// A mesh uploaded right away: `upload` is handed the label, vertices and
    /// indices, and the mesh draws all the indices.
    pub fn new<F>(label: String, vertices: Vec<V>, indices: Vec<u32>, upload: F) -> (mesh: Self)
        where
            F: FnOnce(&String, &Vec<V>, &Vec<u32>) -> G,
        requires
            call_requires(upload, (&label, &vertices, &indices)),
        ensures
            mesh matches Mesh::Gpu { gpu, label: l, num_indices } && l@ == label@ && num_indices
                == indices.len() as u32 && call_ensures(upload, (&label, &vertices, &indices), gpu),
    {
        let gpu = upload(&label, &vertices, &indices);
        let num_indices = indices.len() as u32;
        Mesh::Gpu { gpu, label, num_indices }
    }

    /// The label of the mesh.
    pub fn label(&self) -> (label: &String)
        ensures
            label@ == self.spec_label(),
    {
        match self {
            Mesh::Cpu { label, .. } => label,
            Mesh::Gpu { label, .. } => label,
        }
    }

    /// Uploads a mesh that is still on the CPU: `upload` is handed its label,
    /// vertices and indices, and the mesh then draws all its indices. A mesh
    /// on the GPU stays as it is.
    pub fn buffer<F>(&mut self, upload: F)
        where
            F: FnOnce(&String, &Vec<V>, &Vec<u32>) -> G,
        requires
            *old(self) matches Mesh::Cpu { label, vertices, indices } ==> call_requires(
                upload,
                (&label, &vertices, &indices),
            ),
        ensures
            final(self).spec_label() == old(self).spec_label(),
            match *old(self) {
                Mesh::Cpu { label, vertices, indices } => *final(self) matches Mesh::Gpu {
                    gpu,
                    num_indices,
                    ..
                } && num_indices == indices.len() as u32 && call_ensures(
                    upload,
                    (&label, &vertices, &indices),
                    gpu,
                ),
                Mesh::Gpu { .. } => *final(self) == *old(self),
            },
    {
        if let Mesh::Cpu { label, vertices, indices } = self {
            let gpu = upload(label, vertices, indices);
            let label = label.clone();
            let num_indices = indices.len() as u32;
            *self = Mesh::Gpu { gpu, label, num_indices };
        }
    }

    /// Runs `edit` on the vertices of a mesh on the CPU and returns what it
    /// returns; fails, leaving the mesh as it is, once the mesh is on the
    /// GPU. The label and the indices are left as they are.
    pub fn vertices<F, R>(&mut self, edit: F) -> (r: Result<R, MeshError>)
        where
            F: FnOnce(&mut Vec<V>) -> R,
        requires
            forall|v: &mut Vec<V>| old(self).cpu_vertices() == Some(*v) ==> call_requires(edit, (v,)),
        ensures
            r is Ok <==> *old(self) is Cpu,
            r is Err ==> r == Err::<R, MeshError>(MeshError::OnGpu) && *final(self) == *old(self),
            *final(self) is Cpu <==> *old(self) is Cpu,
            final(self).spec_label() == old(self).spec_label(),
            final(self).cpu_indices() == old(self).cpu_indices(),
            old(self).cpu_vertices() is Some ==> exists|v: &mut Vec<V>|
                old(self).cpu_vertices() == Some(*v) && final(self).cpu_vertices() == Some(*final(v))
                && (r matches Ok(x) && call_ensures(edit, (v,), x)),
    {
        match self {
            Mesh::Cpu { vertices, .. } => Ok(edit(vertices)),
            Mesh::Gpu { .. } => Err(MeshError::OnGpu),
        }
    }

    /// Runs `edit` on the indices of a mesh on the CPU and returns what it
    /// returns; fails, leaving the mesh as it is, once the mesh is on the
    /// GPU. The label and the vertices are left as they are.
    pub fn indices<F, R>(&mut self, edit: F) -> (r: Result<R, MeshError>)
        where
            F: FnOnce(&mut Vec<u32>) -> R,
        requires
            forall|i: &mut Vec<u32>| old(self).cpu_indices() == Some(*i) ==> call_requires(edit, (i,)),
        ensures
            r is Ok <==> *old(self) is Cpu,
            r is Err ==> r == Err::<R, MeshError>(MeshError::OnGpu) && *final(self) == *old(self),
            *final(self) is Cpu <==> *old(self) is Cpu,
            final(self).spec_label() == old(self).spec_label(),
            final(self).cpu_vertices() == old(self).cpu_vertices(),
            old(self).cpu_indices() is Some ==> exists|i: &mut Vec<u32>|
                old(self).cpu_indices() == Some(*i) && final(self).cpu_indices() == Some(*final(i))
                && (r matches Ok(x) && call_ensures(edit, (i,), x)),
    {
        match self {
            Mesh::Cpu { indices, .. } => Ok(edit(indices)),
            Mesh::Gpu { .. } => Err(MeshError::OnGpu),
        }
    }

    /// Runs `edit` on the vertices and indices of a mesh on the CPU and
    /// returns what it returns; fails, leaving the mesh as it is, once the
    /// mesh is on the GPU. The label is left as it is.
    pub fn vertices_indices<F, R>(&mut self, edit: F) -> (r: Result<R, MeshError>)
        where
            F: FnOnce(&mut Vec<V>, &mut Vec<u32>) -> R,
        requires
            forall|v: &mut Vec<V>, i: &mut Vec<u32>|
                old(self).cpu_vertices() == Some(*v) && old(self).cpu_indices() == Some(*i)
                    ==> call_requires(edit, (v, i)),
        ensures
            r is Ok <==> *old(self) is Cpu,
            r is Err ==> r == Err::<R, MeshError>(MeshError::OnGpu) && *final(self) == *old(self),
            *final(self) is Cpu <==> *old(self) is Cpu,
            final(self).spec_label() == old(self).spec_label(),
            *old(self) is Cpu ==> exists|v: &mut Vec<V>, i: &mut Vec<u32>|
                old(self).cpu_vertices() == Some(*v) && old(self).cpu_indices() == Some(*i)
                && final(self).cpu_vertices() == Some(*final(v))
                && final(self).cpu_indices() == Some(*final(i))
                && (r matches Ok(x) && call_ensures(edit, (v, i), x)),
    {
        match self {
            Mesh::Cpu { vertices, indices, .. } => Ok(edit(vertices, indices)),
            Mesh::Gpu { .. } => Err(MeshError::OnGpu),
        }
    }

    /// Draws a mesh on the GPU: `draw` is handed its GPU side and the number
    /// of indices, and its result is returned. A mesh still on the CPU is
    /// not drawn.
    pub fn render<F, R>(&self, draw: F) -> (r: Option<R>)
        where
            F: FnOnce(&G, u32) -> R,
        requires
            *self matches Mesh::Gpu { gpu, num_indices, .. } ==> call_requires(draw, (&gpu, num_indices)),
        ensures
            match *self {
                Mesh::Cpu { .. } => r is None,
                Mesh::Gpu { gpu, num_indices, .. } => r matches Some(x) && call_ensures(
                    draw,
                    (&gpu, num_indices),
                    x,
                ),
            },
    {
        match self {
            Mesh::Cpu { .. } => None,
            Mesh::Gpu { gpu, num_indices, .. } => Some(draw(gpu, *num_indices)),
        }
    }
}

} // verus!
