//! The mesh fusion engine: instances one primitive template per point,
//! applies a per-point translation and a per-point uniform color, and merges
//! all instances into one contiguous mesh buffer with remapped indices.

use vstd::prelude::*;
use crate::model::{FusionError, MeshAttribute, PointRecord};
use crate::scalar::{add_scalars, channel_bits, normalize_channel, sum_bits, UNIT_ALPHA_BITS};

verus! {

/// A triangle mesh held as parallel per-vertex arrays and a flat index list.
/// Every scalar is an IEEE-754 binary32 bit pattern. The same type serves as
/// the primitive template, as an instance, and as the fused output.
#[derive(Debug)]
pub struct MeshBuffer {
    pub positions: Vec<(u32, u32, u32)>,
    pub normals: Option<Vec<(u32, u32, u32)>>,
    pub tangents: Option<Vec<(u32, u32, u32, u32)>>,
    pub uvs: Option<Vec<(u32, u32)>>,
    pub colors: Option<Vec<(u32, u32, u32, u32)>>,
    pub indices: Vec<u32>,
}

/// A translation-only transform: the offset added to every vertex position
/// of an instance. The linear part of such a transform is the identity, and
/// so is its inverse transpose, which is what normals are mapped by.
#[derive(Clone, Copy, Debug, PartialEq, Eq, Structural)]
pub struct Translation {
    pub x: u32,
    pub y: u32,
    pub z: u32,
}

/// A template vertex position moved by a translation, component by component.
pub open spec fn translate_pos(p: (u32, u32, u32), t: Translation) -> (u32, u32, u32) {
    (sum_bits(p.0, t.x), sum_bits(p.1, t.y), sum_bits(p.2, t.z))
}

/// The uniform RGBA color of a point's instance: each channel normalized to
/// the unit interval, alpha fully opaque.
pub open spec fn point_color(p: PointRecord) -> (u32, u32, u32, u32) {
    (channel_bits(p.red), channel_bits(p.green), channel_bits(p.blue), UNIT_ALPHA_BITS)
}

/// The translation derived from a point: its position coordinates.
pub open spec fn point_translation(p: PointRecord) -> Translation {
    Translation { x: p.x, y: p.y, z: p.z }
}

impl MeshBuffer {
    /// Well-formedness: every present attribute array runs parallel to the
    /// positions, the index list holds whole triangles, and every index
    /// points at a position.
    pub open spec fn wf(&self) -> bool {
        &&& match self.normals {
            Some(ns) => ns@.len() == self.positions@.len(),
            None => true,
        }
        &&& match self.tangents {
            Some(ts) => ts@.len() == self.positions@.len(),
            None => true,
        }
        &&& match self.uvs {
            Some(us) => us@.len() == self.positions@.len(),
            None => true,
        }
        &&& match self.colors {
            Some(cs) => cs@.len() == self.positions@.len(),
            None => true,
        }
        &&& self.indices@.len() % 3 == 0
        &&& forall|k: int|
            0 <= k < self.indices@.len() ==> (self.indices@[k] as int) < self.positions@.len()
    }
}

/// Total vertex count of the first `n` meshes; the index offset of mesh `n`.
pub open spec fn verts_before(ms: Seq<MeshBuffer>, n: int) -> int
    decreases n,
{
    if n <= 0 {
        0
    } else {
        verts_before(ms, n - 1) + ms[n - 1].positions@.len()
    }
}

/// Total index count of the first `n` meshes.
pub open spec fn indices_before(ms: Seq<MeshBuffer>, n: int) -> int
    decreases n,
{
    if n <= 0 {
        0
    } else {
        indices_before(ms, n - 1) + ms[n - 1].indices@.len()
    }
}

/// The first attribute that `m` lacks although the options request it,
/// checked in the order the fusion walks them.
pub open spec fn missing_attr(
    m: MeshBuffer,
    use_normals: bool,
    use_tangents: bool,
    use_uvs: bool,
    use_colors: bool,
) -> Option<MeshAttribute> {
    if use_uvs && m.uvs is None {
        Some(MeshAttribute::Uv)
    } else if use_normals && m.normals is None {
        Some(MeshAttribute::Normal)
    } else if use_tangents && m.tangents is None {
        Some(MeshAttribute::Tangent)
    } else if use_colors && m.colors is None {
        Some(MeshAttribute::Color)
    } else {
        None
    }
}

/// The first missing requested attribute over the first `n` meshes.
pub open spec fn first_missing(
    ms: Seq<MeshBuffer>,
    n: int,
    use_normals: bool,
    use_tangents: bool,
    use_uvs: bool,
    use_colors: bool,
) -> Option<MeshAttribute>
    decreases n,
{
    if n <= 0 {
        None
    } else {
        match first_missing(ms, n - 1, use_normals, use_tangents, use_uvs, use_colors) {
            Some(a) => Some(a),
            None => missing_attr(ms[n - 1], use_normals, use_tangents, use_uvs, use_colors),
        }
    }
}

/// Vertex counts of prefixes never shrink.
pub proof fn lemma_verts_before_mono(ms: Seq<MeshBuffer>, i: int, j: int)
    requires
        0 <= i <= j,
    ensures
        verts_before(ms, i) <= verts_before(ms, j),
    decreases j,
{
    if i < j {
        lemma_verts_before_mono(ms, i, j - 1);
    }
}

/// Prefix totals are nonnegative.
pub proof fn lemma_verts_before_nonneg(ms: Seq<MeshBuffer>, n: int)
    ensures
        verts_before(ms, n) >= 0,
    decreases n,
{
    if n > 0 {
        lemma_verts_before_nonneg(ms, n - 1);
    }
}

} // verus!

verus! {

/// Index counts of prefixes never shrink.
pub proof fn lemma_indices_before_mono(ms: Seq<MeshBuffer>, i: int, j: int)
    requires
        0 <= i <= j,
    ensures
        indices_before(ms, i) <= indices_before(ms, j),
    decreases j,
{
    if i < j {
        lemma_indices_before_mono(ms, i, j - 1);
    }
}

/// Index prefix totals are nonnegative.
pub proof fn lemma_indices_before_nonneg(ms: Seq<MeshBuffer>, n: int)
    ensures
        indices_before(ms, n) >= 0,
    decreases n,
{
    if n > 0 {
        lemma_indices_before_nonneg(ms, n - 1);
    }
}

/// If the first `i` meshes lack nothing and mesh `i` lacks `a`, then `a` is
/// the first missing attribute of any prefix that reaches past `i`.
pub proof fn lemma_first_missing_found(
    ms: Seq<MeshBuffer>,
    i: int,
    j: int,
    a: MeshAttribute,
    un: bool,
    ut: bool,
    uu: bool,
    uc: bool,
)
    requires
        0 <= i < j,
        first_missing(ms, i, un, ut, uu, uc) is None,
        missing_attr(ms[i], un, ut, uu, uc) == Some(a),
    ensures
        first_missing(ms, j, un, ut, uu, uc) == Some(a),
    decreases j,
{
    if j > i + 1 {
        lemma_first_missing_found(ms, i, j - 1, a, un, ut, uu, uc);
    }
}

/// Append a copy of `src` to `dst`, translating every entry.
fn append_translated(dst: &mut Vec<(u32, u32, u32)>, src: &Vec<(u32, u32, u32)>, t: Translation)
    ensures
        final(dst)@.len() == old(dst)@.len() + src@.len(),
        forall|j: int| 0 <= j < old(dst)@.len() ==> final(dst)@[j] == old(dst)@[j],
        forall|j: int|
            0 <= j < src@.len() ==> final(dst)@[old(dst)@.len() + j] == translate_pos(src@[j], t),
{
    let mut j: usize = 0;
    while j < src.len()
        invariant
            0 <= j <= src@.len(),
            dst@.len() == old(dst)@.len() + j,
            forall|k: int| 0 <= k < old(dst)@.len() ==> dst@[k] == old(dst)@[k],
            forall|k: int|
                0 <= k < j ==> dst@[old(dst)@.len() + k] == translate_pos(src@[k], t),
        decreases src@.len() - j,
    {
        let p = src[j];
        dst.push((add_scalars(p.0, t.x), add_scalars(p.1, t.y), add_scalars(p.2, t.z)));
        j = j + 1;
    }
}

/// Append a copy of `src` to `dst`.
fn append_copy<T: Copy>(dst: &mut Vec<T>, src: &Vec<T>)
    ensures
        final(dst)@.len() == old(dst)@.len() + src@.len(),
        forall|j: int| 0 <= j < old(dst)@.len() ==> final(dst)@[j] == old(dst)@[j],
        forall|j: int| 0 <= j < src@.len() ==> final(dst)@[old(dst)@.len() + j] == src@[j],
{
    let mut j: usize = 0;
    while j < src.len()
        invariant
            0 <= j <= src@.len(),
            dst@.len() == old(dst)@.len() + j,
            forall|k: int| 0 <= k < old(dst)@.len() ==> dst@[k] == old(dst)@[k],
            forall|k: int| 0 <= k < j ==> dst@[old(dst)@.len() + k] == src@[k],
        decreases src@.len() - j,
    {
        dst.push(src[j]);
        j = j + 1;
    }
}

/// Append a copy of `src` to `dst`, adding `off` to every index.
fn append_offset_indices(dst: &mut Vec<u32>, src: &Vec<u32>, off: u32)
    requires
        forall|j: int| 0 <= j < src@.len() ==> src@[j] + off <= u32::MAX,
    ensures
        final(dst)@.len() == old(dst)@.len() + src@.len(),
        forall|j: int| 0 <= j < old(dst)@.len() ==> final(dst)@[j] == old(dst)@[j],
        forall|j: int|
            0 <= j < src@.len() ==> final(dst)@[old(dst)@.len() + j] as int == src@[j] + off,
{
    let mut j: usize = 0;
    while j < src.len()
        invariant
            0 <= j <= src@.len(),
            forall|k: int| 0 <= k < src@.len() ==> src@[k] + off <= u32::MAX,
            dst@.len() == old(dst)@.len() + j,
            forall|k: int| 0 <= k < old(dst)@.len() ==> dst@[k] == old(dst)@[k],
            forall|k: int| 0 <= k < j ==> dst@[old(dst)@.len() + k] as int == src@[k] + off,
        decreases src@.len() - j,
    {
        dst.push(src[j] + off);
        j = j + 1;
    }
}

/// Everything the fused buffer promises about its inputs: every instance's
/// vertices appear in input order at their vertex offset, positions moved by
/// the instance's translation, the other attributes carried over verbatim,
/// and every instance's indices appear at its index offset, shifted by its
/// vertex offset.
pub open spec fn fused_output(
    out: MeshBuffer,
    ms: Seq<MeshBuffer>,
    ts: Seq<Translation>,
    use_normals: bool,
    use_tangents: bool,
    use_uvs: bool,
    use_colors: bool,
) -> bool {
    let n = ms.len() as int;
    &&& out.positions@.len() == verts_before(ms, n)
    &&& forall|i: int, j: int|
        0 <= i < n && 0 <= j < ms[i].positions@.len() ==> out.positions@[verts_before(ms, i) + j]
            == translate_pos(ms[i].positions@[j], ts[i])
    &&& (if use_normals {
        out.normals is Some && out.normals.unwrap()@.len() == verts_before(ms, n) && forall|
            i: int,
            j: int,
        |
            0 <= i < n && 0 <= j < ms[i].positions@.len()
                ==> out.normals.unwrap()@[verts_before(ms, i) + j] == ms[i].normals.unwrap()@[j]
    } else {
        out.normals is None
    })
    &&& (if use_tangents {
        out.tangents is Some && out.tangents.unwrap()@.len() == verts_before(ms, n) && forall|
            i: int,
            j: int,
        |
            0 <= i < n && 0 <= j < ms[i].positions@.len()
                ==> out.tangents.unwrap()@[verts_before(ms, i) + j] == ms[i].tangents.unwrap()@[j]
    } else {
        out.tangents is None
    })
    &&& (if use_uvs {
        out.uvs is Some && out.uvs.unwrap()@.len() == verts_before(ms, n) && forall|i: int, j: int|
            0 <= i < n && 0 <= j < ms[i].positions@.len()
                ==> out.uvs.unwrap()@[verts_before(ms, i) + j] == ms[i].uvs.unwrap()@[j]
    } else {
        out.uvs is None
    })
    &&& (if use_colors {
        out.colors is Some && out.colors.unwrap()@.len() == verts_before(ms, n) && forall|
            i: int,
            j: int,
        |
            0 <= i < n && 0 <= j < ms[i].positions@.len()
                ==> out.colors.unwrap()@[verts_before(ms, i) + j] == ms[i].colors.unwrap()@[j]
    } else {
        out.colors is None
    })
    &&& out.indices@.len() == indices_before(ms, n)
    &&& forall|i: int, j: int|
        0 <= i < n && 0 <= j < ms[i].indices@.len() ==> out.indices@[indices_before(ms, i) + j]
            as int == ms[i].indices@[j] + verts_before(ms, i)
}

/// Merge many instances into one buffer. Every instance's positions are
/// moved by its transform; normals pass through unchanged, because the
/// inverse transpose of a translation's linear part is the identity and
/// re-normalizing an unchanged normal changes nothing; tangents, uvs and
/// colors are carried verbatim; indices are shifted by the running vertex
/// offset. A requested attribute missing on any instance fails the whole
/// fusion; so do input lists of unequal length.
pub fn combine_meshes(
    meshes: &Vec<MeshBuffer>,
    transforms: &Vec<Translation>,
    use_normals: bool,
    use_tangents: bool,
    use_uvs: bool,
    use_colors: bool,
) -> (r: Result<MeshBuffer, FusionError>)
    requires
        forall|i: int| 0 <= i < meshes@.len() ==> (#[trigger] meshes@[i]).wf(),
        verts_before(meshes@, meshes@.len() as int) <= u32::MAX,
    ensures
        r is Ok <==> (meshes@.len() == transforms@.len() && first_missing(
            meshes@,
            meshes@.len() as int,
            use_normals,
            use_tangents,
            use_uvs,
            use_colors,
        ) is None),
        r matches Ok(out) ==> fused_output(
            out,
            meshes@,
            transforms@,
            use_normals,
            use_tangents,
            use_uvs,
            use_colors,
        ) && out.wf(),
        r matches Err(e) ==> match e {
            FusionError::LengthMismatch => meshes@.len() != transforms@.len(),
            FusionError::MissingAttribute(a) => meshes@.len() == transforms@.len()
                && first_missing(
                meshes@,
                meshes@.len() as int,
                use_normals,
                use_tangents,
                use_uvs,
                use_colors,
            ) == Some(a),
        },
{
    if meshes.len() != transforms.len() {
        return Err(FusionError::LengthMismatch);
    }
    let ghost ms = meshes@;
    let n = meshes.len();
    let mut positions: Vec<(u32, u32, u32)> = Vec::new();
    let mut normals: Vec<(u32, u32, u32)> = Vec::new();
    let mut tangents: Vec<(u32, u32, u32, u32)> = Vec::new();
    let mut uvs: Vec<(u32, u32)> = Vec::new();
    let mut colors: Vec<(u32, u32, u32, u32)> = Vec::new();
    let mut indices: Vec<u32> = Vec::new();
    let mut offset: u32 = 0;
    let mut i: usize = 0;
    while i < n
        invariant
            ms == meshes@,
            n == ms.len(),
            n == transforms@.len(),
            0 <= i <= n,
            forall|k: int| 0 <= k < n ==> (#[trigger] ms[k]).wf(),
            verts_before(ms, n as int) <= u32::MAX,
            offset as int == verts_before(ms, i as int),
            positions@.len() == verts_before(ms, i as int),
            forall|k: int, j: int|
                0 <= k < i && 0 <= j < ms[k].positions@.len() ==> positions@[verts_before(ms, k)
                    + j] == translate_pos(ms[k].positions@[j], transforms@[k]),
            use_normals ==> normals@.len() == verts_before(ms, i as int),
            use_normals ==> forall|k: int, j: int|
                0 <= k < i && 0 <= j < ms[k].positions@.len() ==> normals@[verts_before(ms, k) + j]
                    == ms[k].normals.unwrap()@[j],
            use_tangents ==> tangents@.len() == verts_before(ms, i as int),
            use_tangents ==> forall|k: int, j: int|
                0 <= k < i && 0 <= j < ms[k].positions@.len() ==> tangents@[verts_before(ms, k)
                    + j] == ms[k].tangents.unwrap()@[j],
            use_uvs ==> uvs@.len() == verts_before(ms, i as int),
            use_uvs ==> forall|k: int, j: int|
                0 <= k < i && 0 <= j < ms[k].positions@.len() ==> uvs@[verts_before(ms, k) + j]
                    == ms[k].uvs.unwrap()@[j],
            use_colors ==> colors@.len() == verts_before(ms, i as int),
            use_colors ==> forall|k: int, j: int|
                0 <= k < i && 0 <= j < ms[k].positions@.len() ==> colors@[verts_before(ms, k) + j]
                    == ms[k].colors.unwrap()@[j],
            indices@.len() == indices_before(ms, i as int),
            indices@.len() % 3 == 0,
            forall|k: int, j: int|
                0 <= k < i && 0 <= j < ms[k].indices@.len() ==> indices@[indices_before(ms, k) + j]
                    as int == ms[k].indices@[j] + verts_before(ms, k),
            forall|k: int|
                0 <= k < indices@.len() ==> (indices@[k] as int) < verts_before(ms, i as int),
            first_missing(ms, i as int, use_normals, use_tangents, use_uvs, use_colors) is None,
        decreases n - i,
    {
        let m = &meshes[i];
        proof {
            assert(verts_before(ms, i + 1) == verts_before(ms, i as int)
                + ms[i as int].positions@.len());
            assert(indices_before(ms, i + 1) == indices_before(ms, i as int)
                + ms[i as int].indices@.len());
            lemma_verts_before_mono(ms, i + 1, n as int);
            lemma_verts_before_nonneg(ms, i as int);
        }
        append_translated(&mut positions, &m.positions, transforms[i]);
        if use_uvs {
            match &m.uvs {
                Some(v) => append_copy(&mut uvs, v),
                None => {
                    proof {
                        lemma_first_missing_found(
                            ms,
                            i as int,
                            n as int,
                            MeshAttribute::Uv,
                            use_normals,
                            use_tangents,
                            use_uvs,
                            use_colors,
                        );
                    }
                    return Err(FusionError::MissingAttribute(MeshAttribute::Uv));
                },
            }
        }
        if use_normals {
            match &m.normals {
                Some(v) => append_copy(&mut normals, v),
                None => {
                    proof {
                        lemma_first_missing_found(
                            ms,
                            i as int,
                            n as int,
                            MeshAttribute::Normal,
                            use_normals,
                            use_tangents,
                            use_uvs,
                            use_colors,
                        );
                    }
                    return Err(FusionError::MissingAttribute(MeshAttribute::Normal));
                },
            }
        }
        if use_tangents {
            match &m.tangents {
                Some(v) => append_copy(&mut tangents, v),
                None => {
                    proof {
                        lemma_first_missing_found(
                            ms,
                            i as int,
                            n as int,
                            MeshAttribute::Tangent,
                            use_normals,
                            use_tangents,
                            use_uvs,
                            use_colors,
                        );
                    }
                    return Err(FusionError::MissingAttribute(MeshAttribute::Tangent));
                },
            }
        }
        if use_colors {
            match &m.colors {
                Some(v) => append_copy(&mut colors, v),
                None => {
                    proof {
                        lemma_first_missing_found(
                            ms,
                            i as int,
                            n as int,
                            MeshAttribute::Color,
                            use_normals,
                            use_tangents,
                            use_uvs,
                            use_colors,
                        );
                    }
                    return Err(FusionError::MissingAttribute(MeshAttribute::Color));
                },
            }
        }
        append_offset_indices(&mut indices, &m.indices, offset);
        proof {
            assert forall|k: int, j: int|
                0 <= k < i + 1 && 0 <= j < ms[k].positions@.len() implies positions@[verts_before(
                ms,
                k,
            ) + j] == translate_pos(ms[k].positions@[j], transforms@[k]) by {
                lemma_verts_before_nonneg(ms, k);
                if k < i {
                    lemma_verts_before_mono(ms, k + 1, i as int);
                }
            }
            assert forall|k: int, j: int|
                0 <= k < i + 1 && 0 <= j < ms[k].indices@.len() implies indices@[indices_before(
                ms,
                k,
            ) + j] as int == ms[k].indices@[j] + verts_before(ms, k) by {
                lemma_indices_before_nonneg(ms, k);
                assert(indices_before(ms, k + 1) == indices_before(ms, k) + ms[k].indices@.len());
                if k < i {
                    lemma_indices_before_mono(ms, k + 1, i as int);
                }
            }
            assert forall|k: int, j: int|
                0 <= k < i + 1 && use_normals && 0 <= j < ms[k].positions@.len() implies normals@[
                verts_before(ms, k) + j] == ms[k].normals.unwrap()@[j] by {
                lemma_verts_before_nonneg(ms, k);
                if k < i {
                    lemma_verts_before_mono(ms, k + 1, i as int);
                }
            }
            assert forall|k: int, j: int|
                0 <= k < i + 1 && use_tangents && 0 <= j < ms[k].positions@.len() implies tangents@[
                verts_before(ms, k) + j] == ms[k].tangents.unwrap()@[j] by {
                lemma_verts_before_nonneg(ms, k);
                if k < i {
                    lemma_verts_before_mono(ms, k + 1, i as int);
                }
            }
            assert forall|k: int, j: int|
                0 <= k < i + 1 && use_uvs && 0 <= j < ms[k].positions@.len() implies uvs@[
                verts_before(ms, k) + j] == ms[k].uvs.unwrap()@[j] by {
                lemma_verts_before_nonneg(ms, k);
                if k < i {
                    lemma_verts_before_mono(ms, k + 1, i as int);
                }
            }
            assert forall|k: int, j: int|
                0 <= k < i + 1 && use_colors && 0 <= j < ms[k].positions@.len() implies colors@[
                verts_before(ms, k) + j] == ms[k].colors.unwrap()@[j] by {
                lemma_verts_before_nonneg(ms, k);
                if k < i {
                    lemma_verts_before_mono(ms, k + 1, i as int);
                }
            }
            assert forall|k: int|
                0 <= k < indices@.len() implies (indices@[k] as int) < verts_before(
                ms,
                i + 1,
            ) by {
                lemma_indices_before_nonneg(ms, i as int);
                if k < indices_before(ms, i as int) {
                    assert((indices@[k] as int) < verts_before(ms, i as int));
                } else {
                    let j = k - indices_before(ms, i as int);
                    assert(indices@[indices_before(ms, i as int) + j] as int == ms[i as int].indices@[j]
                        + offset);
                    assert((ms[i as int].indices@[j] as int) < ms[i as int].positions@.len());
                }
            }
        }
        offset = offset + m.positions.len() as u32;
        i = i + 1;
    }
    let out = MeshBuffer {
        positions,
        normals: if use_normals {
            Some(normals)
        } else {
            None
        },
        tangents: if use_tangents {
            Some(tangents)
        } else {
            None
        },
        uvs: if use_uvs {
            Some(uvs)
        } else {
            None
        },
        colors: if use_colors {
            Some(colors)
        } else {
            None
        },
        indices,
    };
    Ok(out)
}

} // verus!

verus! {

/// The flat position of slot `j` of instance `i`, when every instance
/// contributes `stride` slots.
pub open spec fn flat_index(i: int, stride: int, j: int) -> int {
    i * stride + j
}

/// How many points a fusion will stamp: all of them, or the caller's cap.
pub open spec fn fused_count(total: int, max_points: Option<usize>) -> int {
    match max_points {
        Some(m) => if m < total {
            m as int
        } else {
            total
        },
        None => total,
    }
}

/// The first attribute a template lacks although the options request it.
/// Colors are never missing: instancing colors every vertex itself.
pub open spec fn template_missing(
    t: MeshBuffer,
    use_normals: bool,
    use_tangents: bool,
    use_uvs: bool,
) -> Option<MeshAttribute> {
    if use_uvs && t.uvs is None {
        Some(MeshAttribute::Uv)
    } else if use_normals && t.normals is None {
        Some(MeshAttribute::Normal)
    } else if use_tangents && t.tangents is None {
        Some(MeshAttribute::Tangent)
    } else {
        None
    }
}

/// A fresh copy of a vector.
fn copy_vec<T: Copy>(src: &Vec<T>) -> (r: Vec<T>)
    ensures
        r@ == src@,
{
    let mut r: Vec<T> = Vec::new();
    append_copy(&mut r, src);
    proof {
        assert(r@ =~= src@);
    }
    r
}

/// A fresh copy of an optional vector.
fn copy_opt<T: Copy>(src: &Option<Vec<T>>) -> (r: Option<Vec<T>>)
    ensures
        r is Some <==> src is Some,
        src matches Some(v) ==> r.unwrap()@ == v@,
{
    match src {
        Some(v) => Some(copy_vec(v)),
        None => None,
    }
}

/// `count` copies of one color.
fn uniform_colors(c: (u32, u32, u32, u32), count: usize) -> (r: Vec<(u32, u32, u32, u32)>)
    ensures
        r@.len() == count,
        forall|j: int| 0 <= j < count ==> r@[j] == c,
{
    let mut r: Vec<(u32, u32, u32, u32)> = Vec::new();
    let mut j: usize = 0;
    while j < count
        invariant
            0 <= j <= count,
            r@.len() == j,
            forall|k: int| 0 <= k < j ==> r@[k] == c,
        decreases count - j,
    {
        r.push(c);
        j = j + 1;
    }
    r
}

/// One instance of the template: the same geometry, every vertex colored
/// with the instance's uniform color.
fn instance_mesh(template: &MeshBuffer, color: (u32, u32, u32, u32)) -> (r: MeshBuffer)
    ensures
        r.positions@ == template.positions@,
        r.normals is Some <==> template.normals is Some,
        template.normals matches Some(v) ==> r.normals.unwrap()@ == v@,
        r.tangents is Some <==> template.tangents is Some,
        template.tangents matches Some(v) ==> r.tangents.unwrap()@ == v@,
        r.uvs is Some <==> template.uvs is Some,
        template.uvs matches Some(v) ==> r.uvs.unwrap()@ == v@,
        r.colors is Some && r.colors.unwrap()@.len() == template.positions@.len(),
        forall|j: int|
            0 <= j < template.positions@.len() ==> r.colors.unwrap()@[j] == color,
        r.indices@ == template.indices@,
        template.wf() ==> r.wf(),
{
    let vcount = template.positions.len();
    MeshBuffer {
        positions: copy_vec(&template.positions),
        normals: copy_opt(&template.normals),
        tangents: copy_opt(&template.tangents),
        uvs: copy_opt(&template.uvs),
        colors: Some(uniform_colors(color, vcount)),
        indices: copy_vec(&template.indices),
    }
}

/// For instances of one template, the vertex and index offsets are uniform.
proof fn lemma_uniform_offsets(ms: Seq<MeshBuffer>, v: int, i: int, k: int)
    requires
        0 <= k <= ms.len(),
        forall|q: int| 0 <= q < ms.len() ==> (#[trigger] ms[q]).positions@.len() == v,
        forall|q: int| 0 <= q < ms.len() ==> (#[trigger] ms[q]).indices@.len() == i,
    ensures
        verts_before(ms, k) == k * v,
        indices_before(ms, k) == k * i,
    decreases k,
{
    if k > 0 {
        lemma_uniform_offsets(ms, v, i, k - 1);
        assert(verts_before(ms, k) == verts_before(ms, k - 1) + ms[k - 1].positions@.len());
        assert(indices_before(ms, k) == indices_before(ms, k - 1) + ms[k - 1].indices@.len());
        assert((k - 1) * v + v == k * v) by (nonlinear_arith);
        assert((k - 1) * i + i == k * i) by (nonlinear_arith);
        assert(verts_before(ms, k) == k * v);
        assert(indices_before(ms, k) == k * i);
    } else {
        assert(verts_before(ms, k) == 0);
        assert(k * v == 0) by (nonlinear_arith)
            requires
                k == 0,
        ;
        assert(k * i == 0) by (nonlinear_arith)
            requires
                k == 0,
        ;
    }
}

/// When every instance lacks the same first attribute (or none), so does the
/// whole list.
proof fn lemma_first_missing_uniform(
    ms: Seq<MeshBuffer>,
    n: int,
    val: Option<MeshAttribute>,
    un: bool,
    ut: bool,
    uu: bool,
    uc: bool,
)
    requires
        0 <= n <= ms.len(),
        forall|q: int| 0 <= q < ms.len() ==> missing_attr(#[trigger] ms[q], un, ut, uu, uc) == val,
    ensures
        first_missing(ms, n, un, ut, uu, uc) == if n == 0 {
            None::<MeshAttribute>
        } else {
            val
        },
    decreases n,
{
    if n > 0 {
        lemma_first_missing_uniform(ms, n - 1, val, un, ut, uu, uc);
    }
}

/// Stamp one template per point, color each instance by its point, move it
/// to its point's position, and fuse everything into one buffer. A cap on
/// the number of stamped points may be given; fusing zero points yields an
/// empty buffer, not an error.
pub fn build_fused_mesh(
    points: &Vec<PointRecord>,
    template: &MeshBuffer,
    use_normals: bool,
    use_tangents: bool,
    use_uvs: bool,
    use_colors: bool,
    max_points: Option<usize>,
) -> (r: Result<MeshBuffer, FusionError>)
    requires
        template.wf(),
        fused_count(points@.len() as int, max_points) * template.positions@.len() <= u32::MAX,
    ensures
        r is Ok <==> (fused_count(points@.len() as int, max_points) == 0 || template_missing(
            *template,
            use_normals,
            use_tangents,
            use_uvs,
        ) is None),
        r matches Ok(out) ==> {
            let n = fused_count(points@.len() as int, max_points);
            let v = template.positions@.len() as int;
            let i_len = template.indices@.len() as int;
            &&& out.wf()
            &&& out.positions@.len() == n * v
            &&& forall|i: int, j: int|
                0 <= i < n && 0 <= j < v ==> out.positions@[flat_index(i, v, j)] == translate_pos(
                    template.positions@[j],
                    point_translation(points@[i]),
                )
            &&& (if use_normals {
                out.normals is Some && out.normals.unwrap()@.len() == n * v && forall|
                    i: int,
                    j: int,
                |
                    0 <= i < n && 0 <= j < v ==> #[trigger] out.normals.unwrap()@[flat_index(i, v, j)]
                        == template.normals.unwrap()@[j]
            } else {
                out.normals is None
            })
            &&& (if use_tangents {
                out.tangents is Some && out.tangents.unwrap()@.len() == n * v && forall|
                    i: int,
                    j: int,
                |
                    0 <= i < n && 0 <= j < v ==> #[trigger] out.tangents.unwrap()@[flat_index(i, v, j)]
                        == template.tangents.unwrap()@[j]
            } else {
                out.tangents is None
            })
            &&& (if use_uvs {
                out.uvs is Some && out.uvs.unwrap()@.len() == n * v && forall|i: int, j: int|
                    0 <= i < n && 0 <= j < v ==> #[trigger] out.uvs.unwrap()@[flat_index(i, v, j)]
                        == template.uvs.unwrap()@[j]
            } else {
                out.uvs is None
            })
            &&& (if use_colors {
                out.colors is Some && out.colors.unwrap()@.len() == n * v && forall|
                    i: int,
                    j: int,
                |
                    0 <= i < n && 0 <= j < v ==> #[trigger] out.colors.unwrap()@[flat_index(i, v, j)] == point_color(
                        points@[i],
                    )
            } else {
                out.colors is None
            })
            &&& out.indices@.len() == n * i_len
            &&& forall|i: int, j: int|
                0 <= i < n && 0 <= j < i_len ==> #[trigger] out.indices@[flat_index(i, i_len, j)] as int
                    == template.indices@[j] + i * v
        },
        r matches Err(e) ==> match e {
            FusionError::LengthMismatch => false,
            FusionError::MissingAttribute(a) => fused_count(points@.len() as int, max_points) > 0
                && template_missing(*template, use_normals, use_tangents, use_uvs) == Some(a),
        },
{
    let total = points.len();
    let n: usize = match max_points {
        Some(m) => if m < total {
            m
        } else {
            total
        },
        None => total,
    };
    let ghost v = template.positions@.len() as int;
    let ghost i_len = template.indices@.len() as int;
    let mut meshes: Vec<MeshBuffer> = Vec::new();
    let mut transforms: Vec<Translation> = Vec::new();
    let mut i: usize = 0;
    while i < n
        invariant
            0 <= i <= n,
            n <= points@.len(),
            template.wf(),
            v == template.positions@.len() as int,
            i_len == template.indices@.len() as int,
            meshes@.len() == i,
            transforms@.len() == i,
            forall|q: int| 0 <= q < i ==> (#[trigger] meshes@[q]).wf(),
            forall|q: int| 0 <= q < i ==> (#[trigger] meshes@[q]).positions@.len() == v,
            forall|q: int| 0 <= q < i ==> (#[trigger] meshes@[q]).indices@.len() == i_len,
            forall|q: int| 0 <= q < i ==> (#[trigger] meshes@[q]).positions@ == template.positions@,
            forall|q: int| 0 <= q < i ==> (#[trigger] meshes@[q]).indices@ == template.indices@,
            forall|q: int|
                0 <= q < i ==> missing_attr(
                    #[trigger] meshes@[q],
                    use_normals,
                    use_tangents,
                    use_uvs,
                    use_colors,
                ) == template_missing(*template, use_normals, use_tangents, use_uvs),
            forall|q: int|
                0 <= q < i ==> ((#[trigger] meshes@[q]).normals is Some <==> template.normals
                    is Some),
            forall|q: int|
                0 <= q < i ==> (template.normals is Some ==> (#[trigger] meshes@[q]).normals.unwrap()@
                    == template.normals.unwrap()@),
            forall|q: int|
                0 <= q < i ==> ((#[trigger] meshes@[q]).tangents is Some <==> template.tangents
                    is Some),
            forall|q: int|
                0 <= q < i ==> (template.tangents is Some ==> (#[trigger] meshes@[q]).tangents.unwrap()@
                    == template.tangents.unwrap()@),
            forall|q: int|
                0 <= q < i ==> ((#[trigger] meshes@[q]).uvs is Some <==> template.uvs is Some),
            forall|q: int|
                0 <= q < i ==> (template.uvs is Some ==> (#[trigger] meshes@[q]).uvs.unwrap()@
                    == template.uvs.unwrap()@),
            forall|q: int|
                0 <= q < i ==> (#[trigger] meshes@[q]).colors is Some
                    && meshes@[q].colors.unwrap()@.len() == v,
            forall|q: int, j: int|
                0 <= q < i && 0 <= j < v ==> #[trigger] meshes@[q].colors.unwrap()@[j]
                    == point_color(points@[q]),
            forall|q: int| 0 <= q < i ==> transforms@[q] == point_translation(points@[q]),
        decreases n - i,
    {
        let p = points[i];
        let color = (
            normalize_channel(p.red),
            normalize_channel(p.green),
            normalize_channel(p.blue),
            UNIT_ALPHA_BITS,
        );
        let inst = instance_mesh(template, color);
        meshes.push(inst);
        transforms.push(Translation { x: p.x, y: p.y, z: p.z });
        i = i + 1;
    }
    proof {
        lemma_uniform_offsets(meshes@, v, i_len, n as int);
        assert(verts_before(meshes@, n as int) <= u32::MAX);
        lemma_first_missing_uniform(
            meshes@,
            n as int,
            template_missing(*template, use_normals, use_tangents, use_uvs),
            use_normals,
            use_tangents,
            use_uvs,
            use_colors,
        );
    }
    let fused = combine_meshes(&meshes, &transforms, use_normals, use_tangents, use_uvs, use_colors);
    match fused {
        Ok(out) => {
            proof {
                let ghost ms = meshes@;
                let ghost ts = transforms@;
                let ghost n_i = n as int;
                assert forall|i2: int, j: int| 0 <= i2 < n_i && 0 <= j < v implies out.positions@[flat_index(i2, v, j)] == translate_pos(
                    template.positions@[j],
                    point_translation(points@[i2]),
                ) by {
                    lemma_uniform_offsets(ms, v, i_len, i2);
                    assert(out.positions@[verts_before(ms, i2) + j] == translate_pos(
                        ms[i2].positions@[j],
                        ts[i2],
                    ));
                }
                assert forall|i2: int, j: int| 0 <= i2 < n_i && 0 <= j < i_len implies out.indices@[flat_index(i2, i_len, j)] as int == template.indices@[j] + i2 * v by {
                    lemma_uniform_offsets(ms, v, i_len, i2);
                    assert(out.indices@[indices_before(ms, i2) + j] as int == ms[i2].indices@[j]
                        + verts_before(ms, i2));
                }
                if use_normals {
                    assert forall|i2: int, j: int| 0 <= i2 < n_i && 0 <= j < v implies out.normals.unwrap()@[flat_index(i2, v, j)] == template.normals.unwrap()@[j] by {
                        lemma_uniform_offsets(ms, v, i_len, i2);
                        assert(out.normals.unwrap()@[verts_before(ms, i2) + j] == ms[i2].normals.unwrap()@[
                            j]);
                    }
                }
                if use_tangents {
                    assert forall|i2: int, j: int| 0 <= i2 < n_i && 0 <= j < v implies out.tangents.unwrap()@[flat_index(i2, v, j)] == template.tangents.unwrap()@[j] by {
                        lemma_uniform_offsets(ms, v, i_len, i2);
                        assert(out.tangents.unwrap()@[verts_before(ms, i2) + j] == ms[i2].tangents.unwrap()@[
                            j]);
                    }
                }
                if use_uvs {
                    assert forall|i2: int, j: int| 0 <= i2 < n_i && 0 <= j < v implies out.uvs.unwrap()@[flat_index(i2, v, j)] == template.uvs.unwrap()@[j] by {
                        lemma_uniform_offsets(ms, v, i_len, i2);
                        assert(out.uvs.unwrap()@[verts_before(ms, i2) + j] == ms[i2].uvs.unwrap()@[j]);
                    }
                }
                if use_colors {
                    assert forall|i2: int, j: int| 0 <= i2 < n_i && 0 <= j < v implies out.colors.unwrap()@[flat_index(i2, v, j)] == point_color(points@[i2]) by {
                        lemma_uniform_offsets(ms, v, i_len, i2);
                        assert(out.colors.unwrap()@[verts_before(ms, i2) + j] == ms[i2].colors.unwrap()@[
                            j]);
                    }
                }
            }
            Ok(out)
        },
        Err(e) => Err(e),
    }
}

} // verus!
