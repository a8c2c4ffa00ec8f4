use vstd::prelude::*;
use glam::{DVec2, DVec3};
use std::sync::Arc;

verus! {

/// glam's `DVec2`, used for texture coordinates. The library stores them and
/// never looks inside one.
#[verifier::external_type_specification]
#[verifier::external_body]
pub struct ExDVec2(glam::DVec2);

/// The data that the triangles of one mesh share: a pool of positions,
/// normals and texture coordinates, and the material of the whole mesh.
#[derive(Debug)]
pub struct Mesh<M> {
    pub vertices: Vec<DVec3>,
    pub normals: Vec<DVec3>,
    pub uv: Vec<DVec2>,
    pub material: M,
}

/// Three corners, each a position in the pools of the mesh.
#[derive(Debug)]
pub struct Triangle<M> {
    pub indices: [u32; 3],
    pub data: Arc<Mesh<M>>,
}

/// Another handle to the same value, by std's `Arc::clone`. Trusted: the new
/// handle shows the value that the old one shows.
#[verifier::external_body]
fn share<T>(handle: &Arc<T>) -> (other: Arc<T>)
    ensures
        other == *handle,
{
    Arc::clone(handle)
}

impl<M> Mesh<M> {
    /// Whether the three corners name a position, a normal and a texture
    /// coordinate each.
    pub open spec fn holds(&self, indices: [u32; 3]) -> bool {
        forall|k: int|
            0 <= k < 3 ==> {
                &&& (#[trigger] indices[k]) < self.vertices@.len()
                &&& indices[k] < self.normals@.len()
                &&& indices[k] < self.uv@.len()
            }
    }
}

impl<M> Triangle<M> {
    /// Whether the mesh has data for each of the triangle's corners.
    pub open spec fn wf(&self) -> bool {
        self.data.holds(self.indices)
    }

    /// Whether the mesh has data for each of the triangle's corners.
    pub fn is_valid(&self) -> (ok: bool)
        ensures
            ok == self.wf(),
    {
        let mut k: usize = 0;
        while k < 3
            invariant
                k <= 3,
                forall|j: int|
                    0 <= j < k ==> {
                        &&& (#[trigger] self.indices[j]) < self.data.vertices@.len()
                        &&& self.indices[j] < self.data.normals@.len()
                        &&& self.indices[j] < self.data.uv@.len()
                    },
            decreases 3 - k,
        {
            let index: usize = self.indices[k] as usize;
            if index >= self.data.vertices.len() || index >= self.data.normals.len() || index
                >= self.data.uv.len() {
                return false;
            }
            k = k + 1;
        }
        true
    }

    /// The positions of the three corners.
    pub fn corners(&self) -> (corners: (DVec3, DVec3, DVec3))
        requires
            forall|k: int| 0 <= k < 3 ==> (#[trigger] self.indices[k]) < self.data.vertices@.len(),
        ensures
            corners.0 == self.data.vertices@[self.indices[0] as int],
            corners.1 == self.data.vertices@[self.indices[1] as int],
            corners.2 == self.data.vertices@[self.indices[2] as int],
    {
        (
            self.data.vertices[self.indices[0] as usize],
            self.data.vertices[self.indices[1] as usize],
            self.data.vertices[self.indices[2] as usize],
        )
    }
}

/// The triangles of a mesh: one for each triple of indices, in their order,
/// all sharing the pools and the material handed in.
pub fn create_mesh<M>(
    vertices: Vec<DVec3>,
    normals: Vec<DVec3>,
    uv: Vec<DVec2>,
    indices: Vec<[u32; 3]>,
    material: M,
) -> (triangles: Vec<Arc<Triangle<M>>>)
    ensures
        triangles@.len() == indices@.len(),
        forall|i: int|
            0 <= i < triangles@.len() ==> {
                &&& (#[trigger] triangles@[i]).indices == indices@[i]
                &&& triangles@[i].data.vertices == vertices
                &&& triangles@[i].data.normals == normals
                &&& triangles@[i].data.uv == uv
                &&& triangles@[i].data.material == material
            },
{
    let mesh = Arc::new(Mesh { vertices, normals, uv, material });
    let mut triangles: Vec<Arc<Triangle<M>>> = Vec::new();
    let mut i: usize = 0;
    while i < indices.len()
        invariant
            i <= indices@.len(),
            triangles@.len() == i,
            forall|j: int|
                0 <= j < i ==> {
                    &&& (#[trigger] triangles@[j]).indices == indices@[j]
                    &&& triangles@[j].data == mesh
                },
        decreases indices@.len() - i,
    {
        triangles.push(Arc::new(Triangle { indices: indices[i], data: share(&mesh) }));
        i = i + 1;
    }
    triangles
}

/// The indices of `faces` triangles whose corners are stored one after the
/// other: triangle `i` has the corners `3i`, `3i + 1` and `3i + 2`.
pub fn sequential_indices(faces: u32) -> (indices: Vec<[u32; 3]>)
    requires
        3 * faces <= u32::MAX,
    ensures
        indices@.len() == faces,
        forall|i: int|
            0 <= i < faces ==> {
                &&& (#[trigger] indices@[i])[0] == 3 * i
                &&& indices@[i][1] == 3 * i + 1
                &&& indices@[i][2] == 3 * i + 2
            },
{
    let mut indices: Vec<[u32; 3]> = Vec::new();
    let mut i: u32 = 0;
    while i < faces
        invariant
            i <= faces,
            3 * faces <= u32::MAX,
            indices@.len() == i,
            forall|j: int|
                0 <= j < i ==> {
                    &&& (#[trigger] indices@[j])[0] == 3 * j
                    &&& indices@[j][1] == 3 * j + 1
                    &&& indices@[j][2] == 3 * j + 2
                },
        decreases faces - i,
    {
        let first: u32 = 3 * i;
        indices.push([first, first + 1, first + 2]);
        i = i + 1;
    }
    indices
}

} // verus!
