//! The index arrays of a triangle mesh.
//!
//! A mesh keeps its vertices, normals and texture coordinates in three
//! arrays and names, for every corner of every triangle, one entry of each.
//! This module groups the flat index lists of a mesh file into triangles,
//! makes the indices of one flat normal per triangle, and checks that every
//! index names an entry that exists.

use vstd::prelude::*;

verus! {

/// The corner indices of the triangles of a mesh: for the `t`-th triangle
/// the three vertices, the three normals and the three texture
/// coordinates of its corners.
pub struct Faces {
    pub indices: Vec<[usize; 3]>,
    pub normal_indices: Vec<[usize; 3]>,
    pub texcoord_indices: Vec<[usize; 3]>,
}

/// Whether every index of the triangles is below `bound`.
pub open spec fn all_below(triples: Seq<[usize; 3]>, bound: int) -> bool {
    forall|t: int, c: int| 0 <= t < triples.len() && 0 <= c < 3 ==> (#[trigger] triples[t][c]) < bound
}

impl Faces {
    /// Whether the faces fit a mesh with the given numbers of vertices,
    /// normals and texture coordinates: every triangle has its three kinds
    /// of corner indices, and every index is in range for its array.
    pub open spec fn fits(self, vertices: int, normals: int, texcoords: int) -> bool {
        &&& self.normal_indices@.len() == self.indices@.len()
        &&& self.texcoord_indices@.len() == self.indices@.len()
        &&& all_below(self.indices@, vertices)
        &&& all_below(self.normal_indices@, normals)
        &&& all_below(self.texcoord_indices@, texcoords)
    }

    /// Checks the faces against the sizes of the arrays they index.
    pub fn is_valid(&self, vertices: usize, normals: usize, texcoords: usize) -> (ok: bool)
        ensures
            ok == self.fits(vertices as int, normals as int, texcoords as int),
    {
        self.normal_indices.len() == self.indices.len() && self.texcoord_indices.len()
            == self.indices.len() && indices_in_range(&self.indices, vertices) && indices_in_range(
            &self.normal_indices,
            normals,
        ) && indices_in_range(&self.texcoord_indices, texcoords)
    }
}

/// Groups a flat list of indices into triangles, three at a time in the
/// order of the list. Indices left over at the end, fewer than three, are
/// dropped.
pub fn group_triples(flat: &[u32]) -> (triples: Vec<[usize; 3]>)
    ensures
        triples@.len() == flat@.len() / 3,
        forall|t: int, c: int|
            0 <= t < triples@.len() && 0 <= c < 3 ==> (#[trigger] triples@[t][c]) == flat@[3 * t + c],
{
    let len: usize = flat.len();
    let count: usize = len / 3;
    let mut triples: Vec<[usize; 3]> = Vec::with_capacity(count);
    let mut t: usize = 0;
    while t < count
        invariant
            len == flat@.len(),
            count == len / 3,
            t <= count,
            triples@.len() == t,
            forall|u: int, c: int|
                0 <= u < t && 0 <= c < 3 ==> (#[trigger] triples@[u][c]) == flat@[3 * u + c],
        decreases count - t,
    {
        let triple: [usize; 3] = [flat[3 * t] as usize, flat[3 * t + 1] as usize, flat[3 * t + 2] as usize];
        triples.push(triple);
        t += 1;
    }
    triples
}

/// The normal indices of a mesh that has one flat normal for each
/// triangle: all three corners of the `t`-th triangle use the `t`-th
/// normal.
pub fn flat_normal_indices(count: usize) -> (triples: Vec<[usize; 3]>)
    ensures
        triples@.len() == count,
        forall|t: int, c: int| 0 <= t < count && 0 <= c < 3 ==> (#[trigger] triples@[t][c]) == t,
{
    let mut triples: Vec<[usize; 3]> = Vec::with_capacity(count);
    let mut t: usize = 0;
    while t < count
        invariant
            t <= count,
            triples@.len() == t,
            forall|u: int, c: int| 0 <= u < t && 0 <= c < 3 ==> (#[trigger] triples@[u][c]) == u,
        decreases count - t,
    {
        let triple: [usize; 3] = [t, t, t];
        triples.push(triple);
        t += 1;
    }
    triples
}

/// Whether every index of the triangles names an entry of an array of
/// `bound` entries.
pub fn indices_in_range(triples: &[[usize; 3]], bound: usize) -> (ok: bool)
    ensures
        ok == all_below(triples@, bound as int),
{
    let mut t: usize = 0;
    while t < triples.len()
        invariant
            t <= triples@.len(),
            forall|u: int, c: int| 0 <= u < t && 0 <= c < 3 ==> (#[trigger] triples@[u][c]) < bound,
        decreases triples@.len() - t,
    {
        let triple: &[usize; 3] = &triples[t];
        if triple[0] >= bound || triple[1] >= bound || triple[2] >= bound {
            assert(triples@[t as int][0] >= bound || triples@[t as int][1] >= bound || triples@[t as int][2] >= bound);
            return false;
        }
        t += 1;
    }
    true
}

} // verus!
