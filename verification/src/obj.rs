//! Reading Wavefront `.obj` models.
//!
//! The reader takes a model line by line and decides, for each line, what
//! happens to the mesh being built and what the caller has to do: parse the
//! floating-point components of a vertex line, look a mesh up among the
//! shared assets, or load a material library. Faces are resolved here into
//! indices of the vertex attributes read so far.
use vstd::prelude::*;
use crate::lexing::{
    ascii_bytes, byte_strings, copy_bytes, split_on, split_fields, parse_decimal, parse_unsigned, decimal_text, lemma_decimal_text,
    lemma_decimal_text_parses, lemma_split_three_fields,
};

verus! {

/// The keyword of an object line: `o`.
pub open spec fn kw_object() -> Seq<u8> {
    seq![111u8]
}

/// The keyword of a vertex position line: `v`.
pub open spec fn kw_position() -> Seq<u8> {
    seq![118u8]
}

/// The keyword of a texture coordinate line: `vt`.
pub open spec fn kw_tex_coord() -> Seq<u8> {
    seq![118u8, 116u8]
}

/// The keyword of a vertex normal line: `vn`.
pub open spec fn kw_normal() -> Seq<u8> {
    seq![118u8, 110u8]
}

/// The keyword of a face line: `f`.
pub open spec fn kw_face() -> Seq<u8> {
    seq![102u8]
}

/// The keyword of a material library line: `mtllib`.
pub open spec fn kw_material_library() -> Seq<u8> {
    seq![109u8, 116u8, 108u8, 108u8, 105u8, 98u8]
}

/// The keyword of a material selection line: `usemtl`.
pub open spec fn kw_use_material() -> Seq<u8> {
    seq![117u8, 115u8, 101u8, 109u8, 116u8, 108u8]
}

/// One corner of a face: 0-based indices into the positions, texture
/// coordinates and normals read so far.
#[derive(Debug, Clone, Copy, PartialEq, Eq, Structural)]
pub struct FaceVertex {
    pub position: usize,
    pub uv: usize,
    pub normal: usize,
}

/// What reading a 1-based index field with `count` entries available
/// leads to: `None` where the reader cannot go on (index 0, or past the
/// entries read), `Some(None)` where the field is no number, and otherwise
/// the 0-based index.
pub open spec fn index_outcome(field: Seq<u8>, count: nat) -> Option<Option<nat>> {
    match parse_unsigned(field, usize::MAX as nat) {
        None => Some(None),
        Some(v) => if v == 0 || v > count {
            None
        } else {
            Some(Some((v - 1) as nat))
        },
    }
}

/// What reading one face corner `position/uv/normal` leads to; the fields
/// are read in that order and the first failure decides.
pub open spec fn vertex_outcome(token: Seq<u8>, np: nat, nt: nat, nn: nat) -> Option<Option<FaceVertex>> {
    let f = split_fields(token, 47u8);
    match index_outcome(f[0], np) {
        None => None,
        Some(None) => Some(None),
        Some(Some(p)) => if f.len() < 2 {
            None
        } else {
            match index_outcome(f[1], nt) {
                None => None,
                Some(None) => Some(None),
                Some(Some(t)) => if f.len() < 3 {
                    None
                } else {
                    match index_outcome(f[2], nn) {
                        None => None,
                        Some(None) => Some(None),
                        Some(Some(n)) => Some(
                            Some(FaceVertex { position: p as usize, uv: t as usize, normal: n as usize }),
                        ),
                    }
                },
            }
        },
    }
}

/// The text `a/b/c` of a face corner with position `a`, texture
/// coordinate `b` and normal `c`, written in decimal.
pub open spec fn corner_text(a: nat, b: nat, c: nat) -> Seq<u8> {
    decimal_text(a) + seq![47u8] + decimal_text(b) + seq![47u8] + decimal_text(c)
}

/// A face corner `a/b/c` resolves to position `a - 1`, texture coordinate
/// `b - 1` and normal `c - 1` (the file counts from 1), where `a` is among
/// the positions, `b` among the texture coordinates and `c` among the
/// normals read so far; otherwise the reader cannot go on.
pub proof fn lemma_face_corner_resolves(a: nat, b: nat, c: nat, np: nat, nt: nat, nn: nat)
    requires
        1 <= a <= usize::MAX,
        1 <= b <= usize::MAX,
        1 <= c <= usize::MAX,
    ensures
        vertex_outcome(corner_text(a, b, c), np, nt, nn) == (if a > np || b > nt || c > nn {
            None
        } else {
            Some(Some(FaceVertex { position: (a - 1) as usize, uv: (b - 1) as usize, normal: (c - 1) as usize }))
        }),
{
    lemma_decimal_text(a);
    lemma_decimal_text(b);
    lemma_decimal_text(c);
    lemma_split_three_fields(decimal_text(a), decimal_text(b), decimal_text(c), 47u8);
    lemma_decimal_text_parses(a, usize::MAX as nat);
    lemma_decimal_text_parses(b, usize::MAX as nat);
    lemma_decimal_text_parses(c, usize::MAX as nat);
    let f = split_fields(corner_text(a, b, c), 47u8);
    assert(f[0] == decimal_text(a));
    assert(f[1] == decimal_text(b));
    assert(f[2] == decimal_text(c));
}

/// What reading the corners of a face leads to, corner by corner.
pub open spec fn face_outcome(tokens: Seq<Seq<u8>>, np: nat, nt: nat, nn: nat) -> Option<Option<Seq<FaceVertex>>>
    decreases tokens.len(),
{
    if tokens.len() == 0 {
        Some(Some(Seq::empty()))
    } else {
        match face_outcome(tokens.drop_last(), np, nt, nn) {
            None => None,
            Some(None) => Some(None),
            Some(Some(vs)) => match vertex_outcome(tokens.last(), np, nt, nn) {
                None => None,
                Some(None) => Some(None),
                Some(Some(v)) => Some(Some(vs.push(v))),
            },
        }
    }
}

/// The first position of `name` among `labels`.
pub open spec fn first_index(labels: Seq<Seq<u8>>, name: Seq<u8>) -> Option<usize>
    decreases labels.len(),
{
    if labels.len() == 0 {
        None
    } else {
        match first_index(labels.drop_last(), name) {
            Some(i) => Some(i),
            None => if labels.last() == name {
                Some((labels.len() - 1) as usize)
            } else {
                None
            },
        }
    }
}

/// Why a model could not be read.
#[derive(Debug, PartialEq, Eq, Structural)]
pub enum ObjError {
    /// A face corner holds a field that is no number.
    InvalidIndex,
}

/// A mesh being read: its label, its corners and its indices.
pub struct MeshBuild {
    pub label: Vec<u8>,
    pub vertices: Vec<FaceVertex>,
    pub indices: Vec<u32>,
}

/// The contents of a mesh being read.
pub open spec fn mesh_view(m: MeshBuild) -> (Seq<u8>, Seq<FaceVertex>, Seq<u32>) {
    (m.label@, m.vertices@, m.indices@)
}

/// The indices a face of `count` corners adds to a mesh that holds `base`
/// corners: `base`, `base + 1`, ... cast to `u32`.
pub open spec fn face_indices(base: nat, count: nat) -> Seq<u32> {
    Seq::new(count, |i: int| (base + i) as u32)
}

impl MeshBuild {
    /// Adds the corners of a face and their indices.
    fn add_face(&mut self, corners: Vec<FaceVertex>)
        requires
            old(self).vertices.len() + corners.len() <= usize::MAX,
        ensures
            final(self).label@ == old(self).label@,
            final(self).vertices@ == old(self).vertices@ + corners@,
            final(self).indices@ == old(self).indices@ + face_indices(
                old(self).vertices.len() as nat,
                corners.len() as nat,
            ),
    {
        let base = self.vertices.len();
        let mut k: usize = 0;
        while k < corners.len()
            invariant
                k <= corners.len(),
                base == old(self).vertices.len(),
                base + corners.len() <= usize::MAX,
                self.vertices@ == old(self).vertices@,
                self.label@ == old(self).label@,
                self.indices@ == old(self).indices@ + face_indices(base as nat, k as nat),
            decreases corners.len() - k,
        {
            self.indices.push((k + base) as u32);
            proof {
                assert(face_indices(base as nat, (k + 1) as nat) =~= face_indices(base as nat, k as nat).push(
                    (base + k) as u32,
                ));
            }
            k = k + 1;
        }
        let mut rest = corners;
        self.vertices.append(&mut rest);
    }
}

/// The indices of a mesh count its corners in order: index `k` is `k`
/// (cast to `u32`).
pub open spec fn indices_in_order(vertices: Seq<FaceVertex>, indices: Seq<u32>) -> bool {
    indices == Seq::new(vertices.len(), |k: int| k as u32)
}

/// Reading faces keeps a mesh's indices in order: a mesh starts with no
/// corners and no indices, and each face adds its corners and the indices
/// that continue the count, so every mesh handed back draws its corners one
/// by one in the order read.
pub proof fn lemma_faces_keep_indices_in_order(
    vertices: Seq<FaceVertex>,
    indices: Seq<u32>,
    corners: Seq<FaceVertex>,
)
    requires
        indices_in_order(vertices, indices),
    ensures
        indices_in_order(Seq::empty(), Seq::empty()),
        indices_in_order(vertices + corners, indices + face_indices(vertices.len(), corners.len())),
{
    assert(Seq::<u32>::empty() =~= Seq::new(0, |k: int| k as u32));
    assert(indices + face_indices(vertices.len(), corners.len()) =~= Seq::new(
        (vertices + corners).len(),
        |k: int| k as u32,
    ));
}

/// What the caller of [`ObjReader::read_line`] has to do with the line.
pub enum ObjAction {
    /// Nothing.
    Nothing,
    /// Parse tokens 1 to 3 as the components of a vertex position.
    Position,
    /// Parse tokens 1 and 2 as a texture coordinate.
    TexCoord,
    /// Parse tokens 1 to 3 as the components of a vertex normal.
    Normal,
    /// An object starts. `finished` is the mesh read before it, to be
    /// buffered and filed; then the caller looks `label` up among the shared
    /// meshes and answers with [`ObjReader::object_found`]. Both meshes go
    /// with material `material`.
    Object { finished: Option<MeshBuild>, label: Vec<u8>, material: Option<usize> },
    /// Load the material library at `path` (relative to the model) and
    /// answer with [`ObjReader::materials_loaded`].
    MaterialLibrary { path: Vec<u8> },
}

/// The state of a model being read line by line.
pub struct ObjReader {
    /// The current object was found among the shared meshes, so its vertex
    /// and face lines are skipped.
    label_exists: bool,
    current_mesh: Option<MeshBuild>,
    current_material: Option<usize>,
    positions: usize,
    tex_coords: usize,
    normals: usize,
    materials: Vec<Vec<u8>>,
    /// The label of an object that awaits [`ObjReader::object_found`].
    pending: Option<Vec<u8>>,
}

impl ObjReader {
    /// Whether the lines of the current object are skipped.
    pub closed spec fn skipping(&self) -> bool {
        self.label_exists
    }

    /// The mesh being read.
    pub closed spec fn mesh(&self) -> Option<(Seq<u8>, Seq<FaceVertex>, Seq<u32>)> {
        match self.current_mesh {
            Some(m) => Some(mesh_view(m)),
            None => None,
        }
    }

    /// The material selected for the meshes read from now on.
    pub closed spec fn material(&self) -> Option<usize> {
        self.current_material
    }

    /// The numbers of positions, texture coordinates and normals read.
    pub closed spec fn counts(&self) -> (nat, nat, nat) {
        (self.positions as nat, self.tex_coords as nat, self.normals as nat)
    }

    /// The labels of the materials of the last material library loaded.
    pub closed spec fn materials(&self) -> Seq<Seq<u8>> {
        byte_strings(self.materials@)
    }

    /// The label of an object awaiting a lookup.
    pub closed spec fn pending(&self) -> Option<Seq<u8>> {
        match self.pending {
            Some(l) => Some(l@),
            None => None,
        }
    }

    /// A reader at the start of a model.
    pub fn new() -> (reader: Self)
        ensures
            !reader.skipping(),
            reader.mesh() is None,
            reader.material() is None,
            reader.counts() == (0nat, 0nat, 0nat),
            reader.materials() == Seq::<Seq<u8>>::empty(),
            reader.pending() is None,
    {
        let reader = ObjReader {
            label_exists: false,
            current_mesh: None,
            current_material: None,
            positions: 0,
            tex_coords: 0,
            normals: 0,
            materials: Vec::new(),
            pending: None,
        };
        assert(reader.materials() =~= Seq::<Seq<u8>>::empty());
        reader
    }

    /// Whether reading the line `tokens` goes through: the tokens a line's
    /// keyword needs are there, and every face corner refers to vertex
    /// attributes already read (from 1 on).
    pub open spec fn line_readable(&self, tokens: Seq<Seq<u8>>) -> bool {
        tokens.len() == 0 || match keyword(tokens[0]) {
            Keyword::Object | Keyword::MaterialLibrary | Keyword::UseMaterial => tokens.len() >= 2,
            Keyword::Position | Keyword::Normal => self.skipping() || tokens.len() >= 4,
            Keyword::TexCoord => self.skipping() || tokens.len() >= 3,
            Keyword::Face => self.skipping() || face_outcome(
                tokens.subrange(1, tokens.len() as int),
                self.counts().0,
                self.counts().1,
                self.counts().2,
            ) is Some,
            Keyword::Other => true,
        }
    }

    /// Whether `tokens` is readable; see [`ObjReader::line_readable`].
    pub fn can_read_line(&self, tokens: &Vec<Vec<u8>>) -> (ok: bool)
        ensures
            ok == self.line_readable(byte_strings(tokens@)),
    {
        let ghost t = byte_strings(tokens@);
        if tokens.len() == 0 {
            return true;
        }
        let k = classify(&tokens[0]);
        proof {
            assert(t[0] == tokens@[0]@);
        }
        match k {
            Keyword::Object | Keyword::MaterialLibrary | Keyword::UseMaterial => tokens.len() >= 2,
            Keyword::Position | Keyword::Normal => self.label_exists || tokens.len() >= 4,
            Keyword::TexCoord => self.label_exists || tokens.len() >= 3,
            Keyword::Face => {
                if self.label_exists {
                    true
                } else {
                    let outcome = self.read_face(tokens);
                    outcome.is_some()
                }
            },
            Keyword::Other => true,
        }
    }

    /// Reads one line, given as its tokens.
    ///
    /// Outside an object found among the shared meshes, position, texture
    /// coordinate and normal lines are counted (the caller parses their
    /// components), and the corners of a face line are resolved against the
    /// counts and added to the mesh being read, if any. An object line
    /// hands back the mesh read so far and asks for a lookup of the new
    /// label; a material library line asks for the library to be loaded; a
    /// material line selects the first loaded material of that label, or
    /// none. Fails only on a face corner field that is no number.
    pub fn read_line(&mut self, tokens: &Vec<Vec<u8>>) -> (r: Result<ObjAction, ObjError>)
        requires
            old(self).pending() is None,
            old(self).line_readable(byte_strings(tokens@)),
            old(self).counts().0 < usize::MAX,
            old(self).counts().1 < usize::MAX,
            old(self).counts().2 < usize::MAX,
            old(self).mesh() matches Some(m) ==> m.1.len() + tokens.len() <= usize::MAX,
        ensures
            final(self).materials() == old(self).materials(),
            byte_strings(tokens@).len() == 0 ==> r == Ok::<ObjAction, ObjError>(ObjAction::Nothing)
                && *final(self) == *old(self),
            byte_strings(tokens@).len() > 0 ==> ({
                let t = byte_strings(tokens@);
                let o = *old(self);
                let n = *final(self);
                match keyword(t[0]) {
                    Keyword::Object => {
                        &&& r matches Ok(ObjAction::Object { finished, label, material })
                        &&& label@ == t[1]
                        &&& material == o.material()
                        &&& (finished is Some <==> !o.skipping() && o.mesh() is Some)
                        &&& (finished matches Some(m) ==> Some(mesh_view(m)) == o.mesh())
                        &&& !n.skipping()
                        &&& n.mesh() is None
                        &&& n.pending() == Some(t[1])
                        &&& n.material() == o.material()
                        &&& n.counts() == o.counts()
                    },
                    Keyword::MaterialLibrary => {
                        &&& r matches Ok(ObjAction::MaterialLibrary { path })
                        &&& path@ == t[1]
                        &&& n == o
                    },
                    Keyword::UseMaterial => {
                        &&& r == Ok::<ObjAction, ObjError>(ObjAction::Nothing)
                        &&& n.material() == first_index(o.materials(), t[1])
                        &&& n.skipping() == o.skipping()
                        &&& n.mesh() == o.mesh()
                        &&& n.counts() == o.counts()
                        &&& n.pending() == o.pending()
                    },
                    Keyword::Position if !o.skipping() => {
                        &&& r == Ok::<ObjAction, ObjError>(ObjAction::Position)
                        &&& n.counts() == (o.counts().0 + 1, o.counts().1, o.counts().2)
                        &&& n.skipping() == o.skipping()
                        &&& n.mesh() == o.mesh()
                        &&& n.material() == o.material()
                        &&& n.pending() == o.pending()
                    },
                    Keyword::TexCoord if !o.skipping() => {
                        &&& r == Ok::<ObjAction, ObjError>(ObjAction::TexCoord)
                        &&& n.counts() == (o.counts().0, o.counts().1 + 1, o.counts().2)
                        &&& n.skipping() == o.skipping()
                        &&& n.mesh() == o.mesh()
                        &&& n.material() == o.material()
                        &&& n.pending() == o.pending()
                    },
                    Keyword::Normal if !o.skipping() => {
                        &&& r == Ok::<ObjAction, ObjError>(ObjAction::Normal)
                        &&& n.counts() == (o.counts().0, o.counts().1, o.counts().2 + 1)
                        &&& n.skipping() == o.skipping()
                        &&& n.mesh() == o.mesh()
                        &&& n.material() == o.material()
                        &&& n.pending() == o.pending()
                    },
                    Keyword::Face if !o.skipping() => match face_outcome(
                        t.subrange(1, t.len() as int),
                        o.counts().0,
                        o.counts().1,
                        o.counts().2,
                    ) {
                        Some(Some(corners)) => {
                            &&& r == Ok::<ObjAction, ObjError>(ObjAction::Nothing)
                            &&& n.mesh() == (match o.mesh() {
                                Some((l, v, i)) => Some(
                                    (l, v + corners, i + face_indices(v.len(), corners.len())),
                                ),
                                None => None,
                            })
                            &&& n.skipping() == o.skipping()
                            &&& n.counts() == o.counts()
                            &&& n.material() == o.material()
                            &&& n.pending() == o.pending()
                        },
                        _ => r == Err::<ObjAction, ObjError>(ObjError::InvalidIndex) && n == o,
                    },
                    _ => r == Ok::<ObjAction, ObjError>(ObjAction::Nothing) && n == o,
                }
            }),
    {
        let ghost t = byte_strings(tokens@);
        if tokens.len() == 0 {
            return Ok(ObjAction::Nothing);
        }
        proof {
            assert(t[0] == tokens@[0]@);
        }
        match classify(&tokens[0]) {
            Keyword::Object => {
                proof {
                    assert(t[1] == tokens@[1]@);
                }
                let finished = if self.label_exists {
                    self.label_exists = false;
                    self.current_mesh = None;
                    None
                } else {
                    self.current_mesh.take()
                };
                let label = copy_bytes(&tokens[1]);
                self.pending = Some(copy_bytes(&tokens[1]));
                Ok(ObjAction::Object { finished, label, material: self.current_material })
            },
            Keyword::MaterialLibrary => {
                proof {
                    assert(t[1] == tokens@[1]@);
                }
                Ok(ObjAction::MaterialLibrary { path: copy_bytes(&tokens[1]) })
            },
            Keyword::UseMaterial => {
                proof {
                    assert(t[1] == tokens@[1]@);
                }
                self.current_material = self.find_material(&tokens[1]);
                Ok(ObjAction::Nothing)
            },
            Keyword::Position => {
                if self.label_exists {
                    Ok(ObjAction::Nothing)
                } else {
                    self.positions = self.positions + 1;
                    Ok(ObjAction::Position)
                }
            },
            Keyword::TexCoord => {
                if self.label_exists {
                    Ok(ObjAction::Nothing)
                } else {
                    self.tex_coords = self.tex_coords + 1;
                    Ok(ObjAction::TexCoord)
                }
            },
            Keyword::Normal => {
                if self.label_exists {
                    Ok(ObjAction::Nothing)
                } else {
                    self.normals = self.normals + 1;
                    Ok(ObjAction::Normal)
                }
            },
            Keyword::Face => {
                if self.label_exists {
                    Ok(ObjAction::Nothing)
                } else {
                    match self.read_face(tokens) {
                        None => {
                            assert(false);
                            Ok(ObjAction::Nothing)
                        },
                        Some(Err(e)) => Err(e),
                        Some(Ok(corners)) => {
                            match &mut self.current_mesh {
                                Some(mesh) => {
                                    mesh.add_face(corners);
                                },
                                None => {},
                            }
                            Ok(ObjAction::Nothing)
                        },
                    }
                }
            },
            Keyword::Other => Ok(ObjAction::Nothing),
        }
    }

    /// The first loaded material labelled `name`.
    fn find_material(&self, name: &Vec<u8>) -> (index: Option<usize>)
        ensures
            index == first_index(self.materials(), name@),
    {
        let ghost labels = self.materials();
        let mut i: usize = 0;
        while i < self.materials.len()
            invariant
                i <= self.materials.len(),
                labels == self.materials(),
                labels.len() == self.materials.len(),
                first_index(labels.subrange(0, i as int), name@) is None,
            decreases self.materials.len() - i,
        {
            proof {
                let next = labels.subrange(0, i + 1);
                assert(next.drop_last() =~= labels.subrange(0, i as int));
                assert(next.last() == self.materials@[i as int]@);
            }
            if same_bytes(&self.materials[i], name) {
                proof {
                    lemma_first_index_sticks(labels, i + 1, name@);
                }
                return Some(i);
            }
            i = i + 1;
        }
        assert(labels.subrange(0, i as int) =~= labels);
        None
    }

    /// Answers the lookup an object line asked for: `found` tells whether a
    /// mesh of that label is already shared. If it is, the object's lines
    /// are skipped; if not, a mesh of that label starts empty.
    pub fn object_found(&mut self, found: bool)
        requires
            old(self).pending() is Some,
        ensures
            final(self).pending() is None,
            final(self).skipping() == found,
            final(self).mesh() == (if found {
                None
            } else {
                Some((old(self).pending().unwrap(), Seq::<FaceVertex>::empty(), Seq::<u32>::empty()))
            }),
            final(self).material() == old(self).material(),
            final(self).counts() == old(self).counts(),
            final(self).materials() == old(self).materials(),
    {
        let label = self.pending.take().unwrap();
        if found {
            self.label_exists = true;
            self.current_mesh = None;
        } else {
            self.label_exists = false;
            self.current_mesh = Some(MeshBuild { label, vertices: Vec::new(), indices: Vec::new() });
        }
    }

    /// Answers a material library request with the labels of the materials
    /// loaded, in order; they replace the ones loaded before.
    pub fn materials_loaded(&mut self, labels: Vec<Vec<u8>>)
        ensures
            final(self).materials() == byte_strings(labels@),
            final(self).skipping() == old(self).skipping(),
            final(self).mesh() == old(self).mesh(),
            final(self).material() == old(self).material(),
            final(self).counts() == old(self).counts(),
            final(self).pending() == old(self).pending(),
    {
        self.materials = labels;
    }

    /// Ends the model: the mesh still being read, with its material.
    pub fn finish(self) -> (last: Option<(MeshBuild, Option<usize>)>)
        ensures
            last is Some <==> self.mesh() is Some,
            last matches Some((m, material)) ==> Some(mesh_view(m)) == self.mesh() && material
                == self.material(),
    {
        match self.current_mesh {
            Some(mesh) => Some((mesh, self.current_material)),
            None => None,
        }
    }

    /// Reads the corners of the face line `tokens`: `None` where reading
    /// cannot go on, `Some(Err(..))` where a field is no number.
    fn read_face(&self, tokens: &Vec<Vec<u8>>) -> (r: Option<Result<Vec<FaceVertex>, ObjError>>)
        requires
            tokens.len() >= 1,
        ensures
            match r {
                None => face_outcome(
                    byte_strings(tokens@).subrange(1, tokens.len() as int),
                    self.counts().0,
                    self.counts().1,
                    self.counts().2,
                ) is None,
                Some(Err(_)) => face_outcome(
                    byte_strings(tokens@).subrange(1, tokens.len() as int),
                    self.counts().0,
                    self.counts().1,
                    self.counts().2,
                ) == Some(None::<Seq<FaceVertex>>),
                Some(Ok(vs)) => face_outcome(
                    byte_strings(tokens@).subrange(1, tokens.len() as int),
                    self.counts().0,
                    self.counts().1,
                    self.counts().2,
                ) == Some(Some(vs@)) && vs.len() + 1 == tokens.len(),
            },
    {
        let ghost all = byte_strings(tokens@);
        let ghost (np, nt, nn) = self.counts();
        let mut corners: Vec<FaceVertex> = Vec::new();
        let mut i: usize = 1;
        while i < tokens.len()
            invariant
                1 <= i <= tokens.len(),
                all == byte_strings(tokens@),
                (np, nt, nn) == self.counts(),
                face_outcome(all.subrange(1, i as int), np, nt, nn) == Some(Some(corners@)),
                corners.len() + 1 == i,
            decreases tokens.len() - i,
        {
            proof {
                let next = all.subrange(1, i + 1);
                assert(next.drop_last() =~= all.subrange(1, i as int));
                assert(next.last() == tokens@[i as int]@);
            }
            let corner = match self.read_vertex(&tokens[i]) {
                None => {
                    proof {
                        lemma_face_outcome_sticks(all.subrange(1, tokens.len() as int), i as int, np, nt, nn);
                        assert(all.subrange(1, tokens.len() as int).subrange(0, i as int) =~= all.subrange(1, i + 1));
                    }
                    return None;
                },
                Some(None) => {
                    proof {
                        lemma_face_outcome_sticks(all.subrange(1, tokens.len() as int), i as int, np, nt, nn);
                        assert(all.subrange(1, tokens.len() as int).subrange(0, i as int) =~= all.subrange(1, i + 1));
                    }
                    return Some(Err(ObjError::InvalidIndex));
                },
                Some(Some(c)) => c,
            };
            corners.push(corner);
            i = i + 1;
        }
        assert(all.subrange(1, tokens.len() as int) =~= all.subrange(1, i as int));
        Some(Ok(corners))
    }

    /// Reads one face corner `position/uv/normal`.
    fn read_vertex(&self, token: &Vec<u8>) -> (r: Option<Option<FaceVertex>>)
        ensures
            r == vertex_outcome(token@, self.counts().0, self.counts().1, self.counts().2),
    {
        let fields = split_on(token.as_slice(), 47u8);
        let ghost f = split_fields(token@, 47u8);
        assert(fields[0]@ == f[0]);
        let p = match self.read_index(&fields[0], self.positions) {
            None => return None,
            Some(None) => return Some(None),
            Some(Some(p)) => p,
        };
        if fields.len() < 2 {
            return None;
        }
        assert(fields[1]@ == f[1]);
        let t = match self.read_index(&fields[1], self.tex_coords) {
            None => return None,
            Some(None) => return Some(None),
            Some(Some(t)) => t,
        };
        if fields.len() < 3 {
            return None;
        }
        assert(fields[2]@ == f[2]);
        let n = match self.read_index(&fields[2], self.normals) {
            None => return None,
            Some(None) => return Some(None),
            Some(Some(n)) => n,
        };
        Some(Some(FaceVertex { position: p, uv: t, normal: n }))
    }
    /// Reads a 1-based index among `count` entries.
    fn read_index(&self, field: &Vec<u8>, count: usize) -> (r: Option<Option<usize>>)
        ensures
            match r {
                None => index_outcome(field@, count as nat) is None,
                Some(None) => index_outcome(field@, count as nat) == Some(None::<nat>),
                Some(Some(v)) => index_outcome(field@, count as nat) == Some(Some(v as nat)),
            },
    {
        match parse_decimal(field.as_slice(), usize::MAX as u64) {
            None => Some(None),
            Some(v) => {
                if v == 0 || v > count as u64 {
                    None
                } else {
                    Some(Some((v - 1) as usize))
                }
            },
        }
    }
}

/// The keywords of the lines the reader acts on.
#[derive(PartialEq, Eq, Structural)]
pub enum Keyword {
    Object,
    Position,
    TexCoord,
    Normal,
    Face,
    MaterialLibrary,
    UseMaterial,
    Other,
}

/// The keyword that a first token stands for.
pub open spec fn keyword(t: Seq<u8>) -> Keyword {
    if t == kw_object() {
        Keyword::Object
    } else if t == kw_position() {
        Keyword::Position
    } else if t == kw_tex_coord() {
        Keyword::TexCoord
    } else if t == kw_normal() {
        Keyword::Normal
    } else if t == kw_face() {
        Keyword::Face
    } else if t == kw_material_library() {
        Keyword::MaterialLibrary
    } else if t == kw_use_material() {
        Keyword::UseMaterial
    } else {
        Keyword::Other
    }
}

/// The keyword table of models: `o` names an object, `v` a position, `vt`
/// a texture coordinate, `vn` a normal, `f` a face, `mtllib` a material
/// library and `usemtl` a material; keywords are case-sensitive, and
/// anything else (comments, groups, smoothing) is passed over.
pub proof fn lemma_obj_keyword_table()
    ensures
        keyword(ascii_bytes("o"@)) == Keyword::Object,
        keyword(ascii_bytes("v"@)) == Keyword::Position,
        keyword(ascii_bytes("vt"@)) == Keyword::TexCoord,
        keyword(ascii_bytes("vn"@)) == Keyword::Normal,
        keyword(ascii_bytes("f"@)) == Keyword::Face,
        keyword(ascii_bytes("mtllib"@)) == Keyword::MaterialLibrary,
        keyword(ascii_bytes("usemtl"@)) == Keyword::UseMaterial,
        keyword(ascii_bytes("V"@)) == Keyword::Other,
        keyword(ascii_bytes("vp"@)) == Keyword::Other,
        keyword(ascii_bytes("#"@)) == Keyword::Other,
        keyword(ascii_bytes("g"@)) == Keyword::Other,
        keyword(ascii_bytes("s"@)) == Keyword::Other,
        keyword(Seq::<u8>::empty()) == Keyword::Other,
{
    reveal_strlit("o");
    reveal_strlit("v");
    reveal_strlit("vt");
    reveal_strlit("vn");
    reveal_strlit("f");
    reveal_strlit("mtllib");
    reveal_strlit("usemtl");
    reveal_strlit("V");
    reveal_strlit("vp");
    reveal_strlit("#");
    reveal_strlit("g");
    reveal_strlit("s");
    assert(ascii_bytes("o"@) =~= seq![111u8]);
    assert(ascii_bytes("v"@) =~= seq![118u8]);
    assert(ascii_bytes("vt"@) =~= seq![118u8, 116u8]);
    assert(ascii_bytes("vn"@) =~= seq![118u8, 110u8]);
    assert(ascii_bytes("f"@) =~= seq![102u8]);
    assert(ascii_bytes("mtllib"@) =~= seq![109u8, 116u8, 108u8, 108u8, 105u8, 98u8]);
    assert(ascii_bytes("usemtl"@) =~= seq![117u8, 115u8, 101u8, 109u8, 116u8, 108u8]);
    assert(ascii_bytes("V"@) =~= seq![86u8]);
    assert(ascii_bytes("vp"@) =~= seq![118u8, 112u8]);
    assert(ascii_bytes("#"@) =~= seq![35u8]);
    assert(ascii_bytes("g"@) =~= seq![103u8]);
    assert(ascii_bytes("s"@) =~= seq![115u8]);
    assert(seq![102u8] != seq![111u8]) by {
        assert(seq![102u8][0] != seq![111u8][0]);
    }
    assert(seq![102u8] != seq![118u8]) by {
        assert(seq![102u8][0] != seq![118u8][0]);
    }
    assert(seq![86u8] != seq![111u8]) by {
        assert(seq![86u8][0] != seq![111u8][0]);
    }
    assert(seq![86u8] != seq![118u8]) by {
        assert(seq![86u8][0] != seq![118u8][0]);
    }
    assert(seq![86u8] != seq![102u8]) by {
        assert(seq![86u8][0] != seq![102u8][0]);
    }
    assert(seq![35u8] != seq![111u8]) by {
        assert(seq![35u8][0] != seq![111u8][0]);
    }
    assert(seq![35u8] != seq![118u8]) by {
        assert(seq![35u8][0] != seq![118u8][0]);
    }
    assert(seq![35u8] != seq![102u8]) by {
        assert(seq![35u8][0] != seq![102u8][0]);
    }
    assert(seq![103u8] != seq![111u8]) by {
        assert(seq![103u8][0] != seq![111u8][0]);
    }
    assert(seq![103u8] != seq![118u8]) by {
        assert(seq![103u8][0] != seq![118u8][0]);
    }
    assert(seq![103u8] != seq![102u8]) by {
        assert(seq![103u8][0] != seq![102u8][0]);
    }
    assert(seq![115u8] != seq![111u8]) by {
        assert(seq![115u8][0] != seq![111u8][0]);
    }
    assert(seq![115u8] != seq![118u8]) by {
        assert(seq![115u8][0] != seq![118u8][0]);
    }
    assert(seq![115u8] != seq![102u8]) by {
        assert(seq![115u8][0] != seq![102u8][0]);
    }
    assert(seq![118u8, 112u8] != seq![118u8, 116u8]) by {
        assert(seq![118u8, 112u8][1] != seq![118u8, 116u8][1]);
    }
    assert(seq![118u8, 112u8] != seq![118u8, 110u8]) by {
        assert(seq![118u8, 112u8][1] != seq![118u8, 110u8][1]);
    }
}

/// Classifies the first token of a line.
pub fn classify(t: &Vec<u8>) -> (k: Keyword)
    ensures
        k == keyword(t@),
{
    let n = t.len();
    if n == 1 && t[0] == 111 {
        assert(t@ =~= kw_object());
        Keyword::Object
    } else if n == 1 && t[0] == 118 {
        assert(t@ =~= kw_position());
        Keyword::Position
    } else if n == 2 && t[0] == 118 && t[1] == 116 {
        assert(t@ =~= kw_tex_coord());
        Keyword::TexCoord
    } else if n == 2 && t[0] == 118 && t[1] == 110 {
        assert(t@ =~= kw_normal());
        Keyword::Normal
    } else if n == 1 && t[0] == 102 {
        assert(t@ =~= kw_face());
        Keyword::Face
    } else if n == 6 && t[0] == 109 && t[1] == 116 && t[2] == 108 && t[3] == 108 && t[4] == 105
        && t[5] == 98 {
        assert(t@ =~= kw_material_library());
        Keyword::MaterialLibrary
    } else if n == 6 && t[0] == 117 && t[1] == 115 && t[2] == 101 && t[3] == 109 && t[4] == 116
        && t[5] == 108 {
        assert(t@ =~= kw_use_material());
        Keyword::UseMaterial
    } else {
        assert(t@ != kw_object() && t@ != kw_position() && t@ != kw_tex_coord() && t@ != kw_normal()
            && t@ != kw_face() && t@ != kw_material_library() && t@ != kw_use_material()) by {
            if t@ == kw_object() || t@ == kw_position() || t@ == kw_face() {
                assert(t@.len() == 1);
            }
            if t@ == kw_tex_coord() || t@ == kw_normal() {
                assert(t@.len() == 2);
            }
            if t@ == kw_material_library() || t@ == kw_use_material() {
                assert(t@.len() == 6);
            }
        }
        Keyword::Other
    }
}

/// Whether two byte strings are equal.
fn same_bytes(a: &Vec<u8>, b: &Vec<u8>) -> (r: bool)
    ensures
        r == (a@ == b@),
{
    if a.len() != b.len() {
        return false;
    }
    let mut i: usize = 0;
    while i < a.len()
        invariant
            a.len() == b.len(),
            i <= a.len(),
            forall|j: int| 0 <= j < i ==> a@[j] == b@[j],
        decreases a.len() - i,
    {
        if a[i] != b[i] {
            return false;
        }
        i = i + 1;
    }
    assert(a@ =~= b@);
    true
}

/// Once a label is found among the first labels, it is the first in all.
proof fn lemma_first_index_sticks(labels: Seq<Seq<u8>>, j: int, name: Seq<u8>)
    requires
        0 <= j <= labels.len(),
        first_index(labels.subrange(0, j), name) is Some,
    ensures
        first_index(labels, name) == first_index(labels.subrange(0, j), name),
    decreases labels.len() - j,
{
    if j < labels.len() {
        let next = labels.subrange(0, j + 1);
        assert(next.drop_last() =~= labels.subrange(0, j));
        lemma_first_index_sticks(labels, j + 1, name);
    } else {
        assert(labels.subrange(0, j) =~= labels);
    }
}

/// Once reading the first corners of a face fails, the whole face fails
/// the same way.
proof fn lemma_face_outcome_sticks(tokens: Seq<Seq<u8>>, j: int, np: nat, nt: nat, nn: nat)
    requires
        0 <= j <= tokens.len(),
        !(face_outcome(tokens.subrange(0, j), np, nt, nn) matches Some(Some(_))),
    ensures
        face_outcome(tokens, np, nt, nn) == face_outcome(tokens.subrange(0, j), np, nt, nn),
    decreases tokens.len() - j,
{
    if j < tokens.len() {
        let next = tokens.subrange(0, j + 1);
        assert(next.drop_last() =~= tokens.subrange(0, j));
        lemma_face_outcome_sticks(tokens, j + 1, np, nt, nn);
    } else {
        assert(tokens.subrange(0, j) =~= tokens);
    }
}

} // verus!
