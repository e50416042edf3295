//! Reading Wavefront `.mtl` material libraries.
//!
//! The reader takes a library line by line and decides what each line does
//! to the material being read and what the caller has to do: parse the
//! floating-point components of a property, load a texture, or look a
//! material up among the shared assets.
use vstd::prelude::*;
use crate::lexing::{ascii_bytes, byte_strings, copy_bytes, parse_decimal, parse_unsigned};

verus! {

/// The keywords of the lines of a material library.
#[derive(Debug, Clone, Copy, PartialEq, Eq, Structural)]
pub enum MtlKeyword {
    /// `newmtl`: a material starts.
    NewMaterial,
    /// `Ns`: the specular focus.
    SpecularFocus,
    /// `Ka`: the ambient color.
    Ambient,
    /// `Kd`: the diffuse color.
    Diffuse,
    /// `Ks`: the specular color.
    Specular,
    /// `Ni`: the optical density.
    OpticalDensity,
    /// `d`: the dissolve factor.
    Dissolve,
    /// `illum`: the illumination model.
    Illumination,
    /// `map_Kd`: the diffuse texture.
    DiffuseTexture,
    /// Anything else.
    Other,
}

/// The keyword that a first token stands for.
pub open spec fn mtl_keyword(t: Seq<u8>) -> MtlKeyword {
    if t == seq![110u8, 101u8, 119u8, 109u8, 116u8, 108u8] {
        MtlKeyword::NewMaterial
    } else if t == seq![78u8, 115u8] {
        MtlKeyword::SpecularFocus
    } else if t == seq![75u8, 97u8] {
        MtlKeyword::Ambient
    } else if t == seq![75u8, 100u8] {
        MtlKeyword::Diffuse
    } else if t == seq![75u8, 115u8] {
        MtlKeyword::Specular
    } else if t == seq![78u8, 105u8] {
        MtlKeyword::OpticalDensity
    } else if t == seq![100u8] {
        MtlKeyword::Dissolve
    } else if t == seq![105u8, 108u8, 108u8, 117u8, 109u8] {
        MtlKeyword::Illumination
    } else if t == seq![109u8, 97u8, 112u8, 95u8, 75u8, 100u8] {
        MtlKeyword::DiffuseTexture
    } else {
        MtlKeyword::Other
    }
}

/// The keyword table of material libraries: `newmtl` starts a material,
/// `Ns` is the specular focus, `Ka` the ambient color, `Kd` the diffuse
/// color, `Ks` the specular color, `Ni` the optical density, `d` the
/// dissolve factor, `illum` the illumination model and `map_Kd` the diffuse
/// texture; keywords are case-sensitive, and anything else is no property.
pub proof fn lemma_mtl_keyword_table()
    ensures
        mtl_keyword(ascii_bytes("newmtl"@)) == MtlKeyword::NewMaterial,
        mtl_keyword(ascii_bytes("Ns"@)) == MtlKeyword::SpecularFocus,
        mtl_keyword(ascii_bytes("Ka"@)) == MtlKeyword::Ambient,
        mtl_keyword(ascii_bytes("Kd"@)) == MtlKeyword::Diffuse,
        mtl_keyword(ascii_bytes("Ks"@)) == MtlKeyword::Specular,
        mtl_keyword(ascii_bytes("Ni"@)) == MtlKeyword::OpticalDensity,
        mtl_keyword(ascii_bytes("d"@)) == MtlKeyword::Dissolve,
        mtl_keyword(ascii_bytes("illum"@)) == MtlKeyword::Illumination,
        mtl_keyword(ascii_bytes("map_Kd"@)) == MtlKeyword::DiffuseTexture,
        mtl_keyword(ascii_bytes("ka"@)) == MtlKeyword::Other,
        mtl_keyword(ascii_bytes("Ke"@)) == MtlKeyword::Other,
        mtl_keyword(ascii_bytes("map_Ka"@)) == MtlKeyword::Other,
        mtl_keyword(Seq::<u8>::empty()) == MtlKeyword::Other,
{
    reveal_strlit("newmtl");
    reveal_strlit("Ns");
    reveal_strlit("Ka");
    reveal_strlit("Kd");
    reveal_strlit("Ks");
    reveal_strlit("Ni");
    reveal_strlit("d");
    reveal_strlit("illum");
    reveal_strlit("map_Kd");
    reveal_strlit("ka");
    reveal_strlit("Ke");
    reveal_strlit("map_Ka");
    assert(ascii_bytes("newmtl"@) =~= seq![110u8, 101u8, 119u8, 109u8, 116u8, 108u8]);
    assert(ascii_bytes("Ns"@) =~= seq![78u8, 115u8]);
    assert(ascii_bytes("Ka"@) =~= seq![75u8, 97u8]);
    assert(ascii_bytes("Kd"@) =~= seq![75u8, 100u8]);
    assert(ascii_bytes("Ks"@) =~= seq![75u8, 115u8]);
    assert(ascii_bytes("Ni"@) =~= seq![78u8, 105u8]);
    assert(ascii_bytes("d"@) =~= seq![100u8]);
    assert(ascii_bytes("illum"@) =~= seq![105u8, 108u8, 108u8, 117u8, 109u8]);
    assert(ascii_bytes("map_Kd"@) =~= seq![109u8, 97u8, 112u8, 95u8, 75u8, 100u8]);
    assert(ascii_bytes("ka"@) =~= seq![107u8, 97u8]);
    assert(ascii_bytes("Ke"@) =~= seq![75u8, 101u8]);
    assert(ascii_bytes("map_Ka"@) =~= seq![109u8, 97u8, 112u8, 95u8, 75u8, 97u8]);
    assert(seq![107u8, 97u8] != seq![75u8, 97u8]) by {
        assert(seq![107u8, 97u8][0] != seq![75u8, 97u8][0]);
    }
}

/// Whether `t` holds exactly the bytes `bytes`.
fn bytes_are(t: &Vec<u8>, bytes: &[u8]) -> (r: bool)
    ensures
        r == (t@ == bytes@),
{
    if t.len() != bytes.len() {
        return false;
    }
    let mut i: usize = 0;
    while i < bytes.len()
        invariant
            t.len() == bytes.len(),
            i <= bytes.len(),
            forall|j: int| 0 <= j < i ==> t@[j] == bytes@[j],
        decreases bytes.len() - i,
    {
        if t[i] != bytes[i] {
            return false;
        }
        i = i + 1;
    }
    assert(t@ =~= bytes@);
    true
}

/// Classifies the first token of a line.
pub fn classify_mtl(t: &Vec<u8>) -> (k: MtlKeyword)
    ensures
        k == mtl_keyword(t@),
{
    let newmtl: [u8; 6] = [110, 101, 119, 109, 116, 108];
    let ns: [u8; 2] = [78, 115];
    let ka: [u8; 2] = [75, 97];
    let kd: [u8; 2] = [75, 100];
    let ks: [u8; 2] = [75, 115];
    let ni: [u8; 2] = [78, 105];
    let d: [u8; 1] = [100];
    let illum: [u8; 5] = [105, 108, 108, 117, 109];
    let map_kd: [u8; 6] = [109, 97, 112, 95, 75, 100];
    assert(newmtl@ =~= seq![110u8, 101u8, 119u8, 109u8, 116u8, 108u8]);
    assert(ns@ =~= seq![78u8, 115u8]);
    assert(ka@ =~= seq![75u8, 97u8]);
    assert(kd@ =~= seq![75u8, 100u8]);
    assert(ks@ =~= seq![75u8, 115u8]);
    assert(ni@ =~= seq![78u8, 105u8]);
    assert(d@ =~= seq![100u8]);
    assert(illum@ =~= seq![105u8, 108u8, 108u8, 117u8, 109u8]);
    assert(map_kd@ =~= seq![109u8, 97u8, 112u8, 95u8, 75u8, 100u8]);
    if bytes_are(t, newmtl.as_slice()) {
        MtlKeyword::NewMaterial
    } else if bytes_are(t, ns.as_slice()) {
        MtlKeyword::SpecularFocus
    } else if bytes_are(t, ka.as_slice()) {
        MtlKeyword::Ambient
    } else if bytes_are(t, kd.as_slice()) {
        MtlKeyword::Diffuse
    } else if bytes_are(t, ks.as_slice()) {
        MtlKeyword::Specular
    } else if bytes_are(t, ni.as_slice()) {
        MtlKeyword::OpticalDensity
    } else if bytes_are(t, d.as_slice()) {
        MtlKeyword::Dissolve
    } else if bytes_are(t, illum.as_slice()) {
        MtlKeyword::Illumination
    } else if bytes_are(t, map_kd.as_slice()) {
        MtlKeyword::DiffuseTexture
    } else {
        MtlKeyword::Other
    }
}

/// The number of tokens, keyword included, that a property line needs.
pub open spec fn property_tokens(k: MtlKeyword) -> nat {
    match k {
        MtlKeyword::Ambient | MtlKeyword::Diffuse | MtlKeyword::Specular => 4,
        _ => 2,
    }
}

/// Why a material library could not be read.
#[derive(Debug, PartialEq, Eq, Structural)]
pub enum MtlError {
    /// A property line comes before any material.
    NoCurrentMaterial,
    /// The illumination model is no `u32` number.
    InvalidNumber,
}

/// What the caller of [`MtlReader::read_line`] has to do with the line.
#[derive(Debug)]
pub enum MtlAction {
    /// Nothing.
    Nothing,
    /// A material starts: if `finish_current`, the material read so far is
    /// filed first; then the caller looks `label` up among the shared
    /// materials and answers with [`MtlReader::material_found`].
    NewMaterial { finish_current: bool, label: Vec<u8> },
    /// Parse the property's components from tokens 1 on; if `has_target`
    /// is false the line fails with [`MtlError::NoCurrentMaterial`] once they
    /// are parsed.
    Property { keyword: MtlKeyword, has_target: bool },
    /// The current material's illumination model.
    Illumination(u32),
    /// Load the texture named by token 1 (relative to the library); if
    /// `has_target` is false the line then fails with
    /// [`MtlError::NoCurrentMaterial`].
    Texture { name: Vec<u8>, has_target: bool },
}

/// The state of a material library being read line by line.
pub struct MtlReader {
    /// The current material was found among the shared materials, so its
    /// property lines are skipped.
    label_exists: bool,
    /// The label of the material being read.
    current: Option<Vec<u8>>,
    /// The label of a material that awaits [`MtlReader::material_found`].
    pending: Option<Vec<u8>>,
}

impl MtlReader {
    /// Whether the lines of the current material are skipped.
    pub closed spec fn skipping(&self) -> bool {
        self.label_exists
    }

    /// The label of the material being read.
    pub closed spec fn current(&self) -> Option<Seq<u8>> {
        match self.current {
            Some(l) => Some(l@),
            None => None,
        }
    }

    /// The label of a material awaiting a lookup.
    pub closed spec fn pending(&self) -> Option<Seq<u8>> {
        match self.pending {
            Some(l) => Some(l@),
            None => None,
        }
    }

    /// A reader at the start of a library.
    pub fn new() -> (reader: Self)
        ensures
            !reader.skipping(),
            reader.current() is None,
            reader.pending() is None,
    {
        MtlReader { label_exists: false, current: None, pending: None }
    }

    /// Whether reading the line `tokens` goes through: the tokens its
    /// keyword needs are there.
    pub open spec fn line_readable(&self, tokens: Seq<Seq<u8>>) -> bool {
        tokens.len() == 0 || match mtl_keyword(tokens[0]) {
            MtlKeyword::NewMaterial => tokens.len() >= 2,
            MtlKeyword::Other => true,
            k => self.skipping() || tokens.len() >= property_tokens(k),
        }
    }

    /// Whether `tokens` is readable; see [`MtlReader::line_readable`].
    pub fn can_read_line(&self, tokens: &Vec<Vec<u8>>) -> (ok: bool)
        ensures
            ok == self.line_readable(byte_strings(tokens@)),
    {
        if tokens.len() == 0 {
            return true;
        }
        proof {
            assert(byte_strings(tokens@)[0] == tokens@[0]@);
        }
        match classify_mtl(&tokens[0]) {
            MtlKeyword::NewMaterial => tokens.len() >= 2,
            MtlKeyword::Other => true,
            MtlKeyword::Ambient | MtlKeyword::Diffuse | MtlKeyword::Specular => self.label_exists
                || tokens.len() >= 4,
            _ => self.label_exists || tokens.len() >= 2,
        }
    }

    /// Reads one line, given as its tokens.
    ///
    /// A `newmtl` line hands back whether the material read so far is to be
    /// filed and asks for a lookup of the new label. Outside a material
    /// found among the shared ones, property lines are handed to the caller
    /// with whether there is a material to set them on, and the
    /// illumination model is parsed here; it fails when it is no `u32`
    /// number or when no material is being read.
    pub fn read_line(&mut self, tokens: &Vec<Vec<u8>>) -> (r: Result<MtlAction, MtlError>)
        requires
            old(self).pending() is None,
            old(self).line_readable(byte_strings(tokens@)),
        ensures
            byte_strings(tokens@).len() == 0 ==> r == Ok::<MtlAction, MtlError>(MtlAction::Nothing)
                && *final(self) == *old(self),
            byte_strings(tokens@).len() > 0 ==> ({
                let t = byte_strings(tokens@);
                let o = *old(self);
                let n = *final(self);
                match mtl_keyword(t[0]) {
                    MtlKeyword::NewMaterial => {
                        &&& r matches Ok(MtlAction::NewMaterial { finish_current, label })
                        &&& label@ == t[1]
                        &&& finish_current == (!o.skipping() && o.current() is Some)
                        &&& !n.skipping()
                        &&& n.current() is None
                        &&& n.pending() == Some(t[1])
                    },
                    MtlKeyword::Other => r == Ok::<MtlAction, MtlError>(MtlAction::Nothing) && n == o,
                    _ if o.skipping() => r == Ok::<MtlAction, MtlError>(MtlAction::Nothing) && n == o,
                    MtlKeyword::Illumination => n == o && match parse_unsigned(t[1], u32::MAX as nat) {
                        None => r == Err::<MtlAction, MtlError>(MtlError::InvalidNumber),
                        Some(v) => if o.current() is None {
                            r == Err::<MtlAction, MtlError>(MtlError::NoCurrentMaterial)
                        } else {
                            r == Ok::<MtlAction, MtlError>(MtlAction::Illumination(v as u32))
                        },
                    },
                    MtlKeyword::DiffuseTexture => {
                        &&& r matches Ok(MtlAction::Texture { name, has_target })
                        &&& name@ == t[1]
                        &&& has_target == o.current() is Some
                        &&& n == o
                    },
                    k => {
                        &&& r == Ok::<MtlAction, MtlError>(
                            MtlAction::Property { keyword: k, has_target: o.current() is Some },
                        )
                        &&& n == o
                    },
                }
            }),
    {
        if tokens.len() == 0 {
            return Ok(MtlAction::Nothing);
        }
        let ghost t = byte_strings(tokens@);
        proof {
            assert(t[0] == tokens@[0]@);
        }
        let keyword = classify_mtl(&tokens[0]);
        match keyword {
            MtlKeyword::NewMaterial => {
                proof {
                    assert(t[1] == tokens@[1]@);
                }
                let finish_current = !self.label_exists && self.current.is_some();
                self.label_exists = false;
                self.current = None;
                self.pending = Some(copy_bytes(&tokens[1]));
                Ok(MtlAction::NewMaterial { finish_current, label: copy_bytes(&tokens[1]) })
            },
            MtlKeyword::Other => Ok(MtlAction::Nothing),
            _ => {
                if self.label_exists {
                    return Ok(MtlAction::Nothing);
                }
                let has_target = self.current.is_some();
                match keyword {
                    MtlKeyword::Illumination => {
                        proof {
                            assert(t[1] == tokens@[1]@);
                        }
                        match parse_decimal(tokens[1].as_slice(), 0xffff_ffff) {
                            None => Err(MtlError::InvalidNumber),
                            Some(v) => {
                                if has_target {
                                    Ok(MtlAction::Illumination(v as u32))
                                } else {
                                    Err(MtlError::NoCurrentMaterial)
                                }
                            },
                        }
                    },
                    MtlKeyword::DiffuseTexture => {
                        proof {
                            assert(t[1] == tokens@[1]@);
                        }
                        Ok(MtlAction::Texture { name: copy_bytes(&tokens[1]), has_target })
                    },
                    _ => Ok(MtlAction::Property { keyword, has_target }),
                }
            },
        }
    }

    /// Answers the lookup a `newmtl` line asked for: `found` tells whether
    /// a material of that label is already shared. If it is, the material's
    /// lines are skipped; if not, a material of that label starts.
    pub fn material_found(&mut self, found: bool)
        requires
            old(self).pending() is Some,
        ensures
            final(self).pending() is None,
            final(self).skipping() == found,
            final(self).current() == (if found {
                None
            } else {
                old(self).pending()
            }),
    {
        let label = self.pending.take().unwrap();
        if found {
            self.label_exists = true;
            self.current = None;
        } else {
            self.label_exists = false;
            self.current = Some(label);
        }
    }

    /// Ends the library: whether a material is still being read, to be
    /// filed.
    pub fn finish(self) -> (last: bool)
        ensures
            last == self.current() is Some,
    {
        self.current.is_some()
    }
}

} // verus!
