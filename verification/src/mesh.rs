//! Per-texture triangle mesh generation: walking the assembled grid,
//! stitching quads across page seams, welding shared vertices, and picking
//! each quad's diagonal split.
//!
//! All geometry is integer-exact: positions are kept in thousandths of a
//! world unit (heights are already stored that way), texture coordinates in
//! units of `1 / 65535`, and normals as unnormalized direction vectors.
//! A renderer divides positions by 1000, texture coordinates by 65535, and
//! scales each normal to unit length.

use vstd::prelude::*;

use crate::map::{lemma_bounds_sentinel, spec_bounds, ElevCell, ElevMap, MapView};
use crate::map::Rotation;

verus! {

/// The texture coordinate standing for 1.0, in units of `1 / 65535`.
pub const UV_MAX: u16 = 65535;

/// The welding key: a vertex's exact quantized position and texture
/// coordinates.  Two vertices merge exactly when their keys are equal.
#[derive(Debug, Clone, Copy, PartialEq, Eq, Hash, Structural)]
pub struct VertexKey {
    pub px: i64,
    pub py: i64,
    pub pz: i64,
    pub u: u16,
    pub v: u16,
}

/// The key of a vertex with the given position and texture coordinates.
pub open spec fn spec_key(p: (i64, i64, i64), uv: (u16, u16)) -> VertexKey {
    VertexKey { px: p.0, py: p.1, pz: p.2, u: uv.0, v: uv.1 }
}

impl VertexKey {
    /// Builds the welding key of one vertex.
    pub fn new(position: (i64, i64, i64), uv: (u16, u16)) -> (r: VertexKey)
        ensures
            r == spec_key(position, uv),
    {
        VertexKey { px: position.0, py: position.1, pz: position.2, u: uv.0, v: uv.1 }
    }
}

/// Mathematical image of one in-progress (or finished) mesh: parallel
/// vertex attributes and a triangle index list.
#[verifier::ext_equal]
pub ghost struct BuilderView {
    pub positions: Seq<(i64, i64, i64)>,
    pub normals: Seq<(i64, i64, i64)>,
    pub uvs: Seq<(u16, u16)>,
    pub indices: Seq<u32>,
}

/// The welding key of vertex `i`.
pub open spec fn builder_key(b: BuilderView, i: int) -> VertexKey {
    spec_key(b.positions[i], b.uvs[i])
}

/// A structurally sound mesh: parallel attributes, every vertex welded (no
/// two share a key), every index in range, whole triangles only.
pub open spec fn builder_wf(b: BuilderView) -> bool {
    &&& b.normals.len() == b.positions.len()
    &&& b.uvs.len() == b.positions.len()
    &&& b.positions.len() <= 0xffff_ffff
    &&& forall|i: int, j: int| 0 <= i < j < b.positions.len()
        ==> builder_key(b, i) != builder_key(b, j)
    &&& forall|t: int| 0 <= t < b.indices.len() ==> (#[trigger] b.indices[t]) < b.positions.len()
    &&& b.indices.len() % 3 == 0
}

/// What adding one vertex does: an existing vertex with the same key is
/// reused and the mesh kept, otherwise the vertex is appended.
pub open spec fn spec_add_vertex(
    b: BuilderView,
    p: (i64, i64, i64),
    n: (i64, i64, i64),
    uv: (u16, u16),
) -> (BuilderView, u32) {
    if exists|i: int| 0 <= i < b.positions.len() && builder_key(b, i) == spec_key(p, uv) {
        let i = choose|i: int| 0 <= i < b.positions.len() && builder_key(b, i) == spec_key(p, uv);
        (b, i as u32)
    } else {
        (
            BuilderView {
                positions: b.positions.push(p),
                normals: b.normals.push(n),
                uvs: b.uvs.push(uv),
                indices: b.indices,
            },
            b.positions.len() as u32,
        )
    }
}

/// The quad's unnormalized face normal: the cross product of its two
/// diagonals `v0 - v3` and `v2 - v1`, which points upward for the unit
/// cell quads the grid emits.
pub open spec fn quad_normal(
    v0: (i64, i64, i64),
    v1: (i64, i64, i64),
    v2: (i64, i64, i64),
    v3: (i64, i64, i64),
) -> (i64, i64, i64) {
    let ax = v0.0 - v3.0;
    let ay = v0.1 - v3.1;
    let az = v0.2 - v3.2;
    let bx = v2.0 - v1.0;
    let by = v2.1 - v1.1;
    let bz = v2.2 - v1.2;
    (
        (ay * bz - az * by) as i64,
        (az * bx - ax * bz) as i64,
        (ax * by - ay * bx) as i64,
    )
}

/// True when the `v0 - v3` diagonal's squared length is at least the
/// `v1 - v2` diagonal's, so the quad splits along `v0 - v3`.
pub open spec fn split_diag0(
    v0: (i64, i64, i64),
    v1: (i64, i64, i64),
    v2: (i64, i64, i64),
    v3: (i64, i64, i64),
) -> bool {
    let d0 = (v0.0 - v3.0) * (v0.0 - v3.0) + (v0.1 - v3.1) * (v0.1 - v3.1) + (v0.2 - v3.2) * (
    v0.2 - v3.2);
    let d1 = (v1.0 - v2.0) * (v1.0 - v2.0) + (v1.1 - v2.1) * (v1.1 - v2.1) + (v1.2 - v2.2) * (
    v1.2 - v2.2);
    d0 >= d1
}

/// Geometric shape of one grid cell quad, in thousandths of a unit:
/// `v1` lies one cell along x from `v0`, `v2` one cell along z, `v3`
/// diagonally, and every height is a 32-bit value.
pub open spec fn unit_quad(
    v0: (i64, i64, i64),
    v1: (i64, i64, i64),
    v2: (i64, i64, i64),
    v3: (i64, i64, i64),
) -> bool {
    &&& v1.0 == v0.0 + 1000 && v1.2 == v0.2
    &&& v2.0 == v0.0 && v2.2 == v0.2 + 1000
    &&& v3.0 == v0.0 + 1000 && v3.2 == v0.2 + 1000
    &&& i32::MIN <= v0.1 <= i32::MAX
    &&& i32::MIN <= v1.1 <= i32::MAX
    &&& i32::MIN <= v2.1 <= i32::MAX
    &&& i32::MIN <= v3.1 <= i32::MAX
}

/// What adding one quad does: its four corners are welded in, sharing one
/// face normal, and six indices append two triangles split along the
/// shorter diagonal (the first, at a tie).
pub open spec fn spec_add_quad(
    b: BuilderView,
    v0: (i64, i64, i64),
    v1: (i64, i64, i64),
    v2: (i64, i64, i64),
    v3: (i64, i64, i64),
    uvs: ((u16, u16), (u16, u16), (u16, u16), (u16, u16)),
) -> BuilderView {
    let n = quad_normal(v0, v1, v2, v3);
    let (b0, i0) = spec_add_vertex(b, v0, n, uvs.0);
    let (b1, i1) = spec_add_vertex(b0, v1, n, uvs.1);
    let (b2, i2) = spec_add_vertex(b1, v2, n, uvs.2);
    let (b3, i3) = spec_add_vertex(b2, v3, n, uvs.3);
    let tris = if split_diag0(v0, v1, v2, v3) {
        seq![i0, i3, i1, i0, i2, i3]
    } else {
        seq![i1, i2, i3, i1, i0, i2]
    };
    BuilderView {
        positions: b3.positions,
        normals: b3.normals,
        uvs: b3.uvs,
        indices: b3.indices + tris,
    }
}

/// Bounds a product by the product of the factors' bounds.
proof fn lemma_mul_bound(a: int, b: int, am: int, bm: int)
    by (nonlinear_arith)
    requires
        0 <= am,
        0 <= bm,
        -am <= a <= am,
        -bm <= b <= bm,
    ensures
        -(am * bm) <= a * b <= am * bm,
{
}

/// Lexicographic order on welding keys, used to keep the lookup sorted.
pub open spec fn key_lt(a: VertexKey, b: VertexKey) -> bool {
    if a.px != b.px {
        a.px < b.px
    } else if a.py != b.py {
        a.py < b.py
    } else if a.pz != b.pz {
        a.pz < b.pz
    } else if a.u != b.u {
        a.u < b.u
    } else {
        a.v < b.v
    }
}

/// [`key_lt`] is a strict total order.
proof fn lemma_key_order(a: VertexKey, b: VertexKey)
    ensures
        !(key_lt(a, b) && key_lt(b, a)),
        a != b ==> key_lt(a, b) || key_lt(b, a),
        !key_lt(a, a),
{
}

/// [`key_lt`] is transitive.
proof fn lemma_key_trans(a: VertexKey, b: VertexKey, c: VertexKey)
    requires
        key_lt(a, b),
        key_lt(b, c),
    ensures
        key_lt(a, c),
{
}

/// Decides [`key_lt`].
fn key_less(a: &VertexKey, b: &VertexKey) -> (r: bool)
    ensures
        r == key_lt(*a, *b),
{
    if a.px != b.px {
        a.px < b.px
    } else if a.py != b.py {
        a.py < b.py
    } else if a.pz != b.pz {
        a.pz < b.pz
    } else if a.u != b.u {
        a.u < b.u
    } else {
        a.v < b.v
    }
}

/// Per-texture accumulator: vertex attributes, triangle indices, and the
/// key-to-index lookup used for welding.  The lookup lists every vertex
/// index once, ordered by welding key, so a key is found or refuted by
/// binary search.
#[derive(Debug)]
pub struct MeshBuilderData {
    positions: Vec<(i64, i64, i64)>,
    normals: Vec<(i64, i64, i64)>,
    uvs: Vec<(u16, u16)>,
    indices: Vec<u32>,
    vertex_map: Vec<u32>,
}

impl View for MeshBuilderData {
    type V = BuilderView;

    closed spec fn view(&self) -> BuilderView {
        BuilderView {
            positions: self.positions@,
            normals: self.normals@,
            uvs: self.uvs@,
            indices: self.indices@,
        }
    }
}

impl MeshBuilderData {
    /// The mesh is structurally sound and the lookup lists exactly the
    /// vertices, each under its key.
    pub closed spec fn wf(&self) -> bool {
        &&& builder_wf(self@)
        &&& self.vertex_map@.len() == self.positions@.len()
        &&& forall|i: int| 0 <= i < self.vertex_map@.len()
            ==> (#[trigger] self.vertex_map@[i]) < self.positions@.len()
        &&& forall|i: int, j: int| 0 <= i < j < self.vertex_map@.len() ==> key_lt(
            builder_key(self@, #[trigger] self.vertex_map@[i] as int),
            builder_key(self@, #[trigger] self.vertex_map@[j] as int),
        )
        &&& forall|v: u32| v < self.positions@.len() ==> #[trigger] self.vertex_map@.contains(v)
    }

    /// Index of the first lookup slot whose key is not below `key`.
    fn find_slot(&self, key: &VertexKey) -> (r: usize)
        requires
            self.wf(),
        ensures
            r <= self.vertex_map@.len(),
            forall|i: int| 0 <= i < r ==> key_lt(
                builder_key(self@, #[trigger] self.vertex_map@[i] as int),
                *key,
            ),
            forall|i: int| r <= i < self.vertex_map@.len() ==> !key_lt(
                builder_key(self@, #[trigger] self.vertex_map@[i] as int),
                *key,
            ),
    {
        let mut lo: usize = 0;
        let mut hi: usize = self.vertex_map.len();
        while lo < hi
            invariant
                self.wf(),
                lo <= hi <= self.vertex_map@.len(),
                forall|i: int| 0 <= i < lo ==> key_lt(
                    builder_key(self@, #[trigger] self.vertex_map@[i] as int),
                    *key,
                ),
                forall|i: int| hi <= i < self.vertex_map@.len() ==> !key_lt(
                    builder_key(self@, #[trigger] self.vertex_map@[i] as int),
                    *key,
                ),
            decreases hi - lo,
        {
            let mid = lo + (hi - lo) / 2;
            let vid = self.vertex_map[mid];
            let vk = VertexKey::new(self.positions[vid as usize], self.uvs[vid as usize]);
            proof {
                assert(vk == builder_key(self@, self.vertex_map@[mid as int] as int));
            }
            if key_less(&vk, key) {
                proof {
                    assert forall|i: int| 0 <= i < mid + 1 implies key_lt(
                        builder_key(self@, #[trigger] self.vertex_map@[i] as int),
                        *key,
                    ) by {
                        if i < mid as int {
                            lemma_key_trans(
                                builder_key(self@, self.vertex_map@[i] as int),
                                vk,
                                *key,
                            );
                        }
                    };
                }
                lo = mid + 1;
            } else {
                proof {
                    assert forall|i: int| mid <= i < self.vertex_map@.len() implies !key_lt(
                        builder_key(self@, #[trigger] self.vertex_map@[i] as int),
                        *key,
                    ) by {
                        if i > mid as int {
                            let ki = builder_key(self@, self.vertex_map@[i] as int);
                            if key_lt(ki, *key) {
                                lemma_key_trans(vk, ki, *key);
                            }
                        }
                    };
                }
                hi = mid;
            }
        }
        lo
    }

    /// A well-formed builder's view is a well-formed mesh.
    pub proof fn lemma_wf_view(&self)
        requires
            self.wf(),
        ensures
            builder_wf(self@),
    {
    }

    /// An empty accumulator.
    pub fn new() -> (r: MeshBuilderData)
        ensures
            r.wf(),
            r@ == (BuilderView {
                positions: Seq::empty(),
                normals: Seq::empty(),
                uvs: Seq::empty(),
                indices: Seq::empty(),
            }),
    {
        let r = MeshBuilderData {
            positions: Vec::new(),
            normals: Vec::new(),
            uvs: Vec::new(),
            indices: Vec::new(),
            vertex_map: Vec::new(),
        };
        proof {
            assert(r@ =~~= (BuilderView {
                positions: Seq::empty(),
                normals: Seq::empty(),
                uvs: Seq::empty(),
                indices: Seq::empty(),
            }));
        }
        r
    }

    /// How many vertices the mesh holds so far.
    pub fn vertex_count(&self) -> (r: usize)
        ensures
            r == self@.positions.len(),
    {
        self.positions.len()
    }

    /// Welds one vertex in: an existing vertex with the same position and
    /// texture coordinates is reused (its index returned), otherwise the
    /// vertex is appended.
    pub fn add_vertex(
        &mut self,
        position: (i64, i64, i64),
        normal: (i64, i64, i64),
        uv: (u16, u16),
    ) -> (r: u32)
        requires
            old(self).wf(),
            old(self)@.positions.len() < 0xffff_ffff,
        ensures
            final(self).wf(),
            (final(self)@, r) == spec_add_vertex(old(self)@, position, normal, uv),
            r < final(self)@.positions.len(),
    {
        let key = VertexKey::new(position, uv);
        let slot = self.find_slot(&key);
        if slot < self.vertex_map.len() {
            let vid = self.vertex_map[slot];
            let vk = VertexKey::new(self.positions[vid as usize], self.uvs[vid as usize]);
            if vk == key {
                proof {
                    assert(builder_key(self@, vid as int) == spec_key(position, uv));
                    assert(exists|m: int|
                        0 <= m < self@.positions.len() && builder_key(self@, m) == spec_key(
                            position,
                            uv,
                        ));
                    let w = choose|m: int|
                        0 <= m < self@.positions.len() && builder_key(self@, m) == spec_key(
                            position,
                            uv,
                        );
                    if w < vid as int {
                        assert(builder_key(self@, w) != builder_key(self@, vid as int));
                    }
                    if (vid as int) < w {
                        assert(builder_key(self@, vid as int) != builder_key(self@, w));
                    }
                    assert(w == vid as int);
                }
                return vid;
            }
        }
        proof {
            let k = spec_key(position, uv);
            let sorted = self.vertex_map@;
            assert forall|w: int| 0 <= w < self@.positions.len() implies builder_key(self@, w)
                != k by {
                assert(sorted.contains(w as u32));
                let i = choose|i: int| 0 <= i < sorted.len() && sorted[i] == w as u32;
                let ki = builder_key(self@, sorted[i] as int);
                if i < slot as int {
                    lemma_key_order(ki, k);
                } else if i == slot as int {
                    assert(builder_key(self@, w) != k);
                } else {
                    let ks = builder_key(self@, sorted[slot as int] as int);
                    lemma_key_order(ks, k);
                    assert(key_lt(k, ks));
                    lemma_key_trans(k, ks, ki);
                    lemma_key_order(k, ki);
                }
            };
        }
        let idx = self.positions.len() as u32;
        let ghost bold = self@;
        let ghost oldsorted = self.vertex_map@;
        self.positions.push(position);
        self.normals.push(normal);
        self.uvs.push(uv);
        self.vertex_map.insert(slot, idx);
        proof {
            let k = spec_key(position, uv);
            let n = bold.positions.len() as int;
            assert forall|m: int| 0 <= m < n implies builder_key(self@, m) == builder_key(
                bold,
                m,
            ) by {
                assert(bold.positions[m] == self@.positions[m]);
                assert(bold.uvs[m] == self@.uvs[m]);
            };
            assert(builder_key(self@, n) == k);
            // how the inserted lookup reads
            assert forall|i: int| 0 <= i < self.vertex_map@.len() implies
                #[trigger] self.vertex_map@[i] == (if i < slot as int {
                    oldsorted[i]
                } else if i == slot as int {
                    idx
                } else {
                    oldsorted[i - 1]
                }) by {};
            // no old vertex carries the new key
            assert forall|i2: int, j2: int|
                0 <= i2 < j2 < self@.positions.len() implies builder_key(self@, i2)
                != builder_key(self@, j2) by {
                if j2 < n {
                    assert(builder_key(bold, i2) != builder_key(bold, j2));
                } else {
                    assert(builder_key(bold, i2) != k);
                }
            };
            // the lookup stays strictly sorted
            assert forall|i2: int, j2: int| 0 <= i2 < j2 < self.vertex_map@.len() implies key_lt(
                builder_key(self@, #[trigger] self.vertex_map@[i2] as int),
                builder_key(self@, #[trigger] self.vertex_map@[j2] as int),
            ) by {
                let ki = builder_key(self@, self.vertex_map@[i2] as int);
                let kj = builder_key(self@, self.vertex_map@[j2] as int);
                if i2 == slot as int {
                    let kjo = builder_key(bold, oldsorted[j2 - 1] as int);
                    assert(kj == kjo);
                    assert(!key_lt(kjo, k));
                    assert(kjo != k);
                    lemma_key_order(kjo, k);
                } else if j2 == slot as int {
                    assert(key_lt(builder_key(bold, oldsorted[i2] as int), k));
                } else if i2 < slot as int && j2 > slot as int {
                    assert(key_lt(builder_key(bold, oldsorted[i2] as int), k));
                    let kjo = builder_key(bold, oldsorted[j2 - 1] as int);
                    assert(!key_lt(kjo, k));
                    assert(kjo != k);
                    lemma_key_order(kjo, k);
                    lemma_key_trans(ki, k, kj);
                } else if j2 < slot as int {
                    assert(key_lt(
                        builder_key(bold, oldsorted[i2] as int),
                        builder_key(bold, oldsorted[j2] as int),
                    ));
                } else {
                    assert(key_lt(
                        builder_key(bold, oldsorted[i2 - 1] as int),
                        builder_key(bold, oldsorted[j2 - 1] as int),
                    ));
                }
            };
            // every vertex, the new one included, is still listed
            assert forall|v: u32| v < self.positions@.len() implies
                #[trigger] self.vertex_map@.contains(v) by {
                if v < n {
                    assert(oldsorted.contains(v));
                    let i0 = choose|i: int| 0 <= i < oldsorted.len() && oldsorted[i] == v;
                    if i0 < slot as int {
                        assert(self.vertex_map@[i0] == v);
                    } else {
                        assert(self.vertex_map@[i0 + 1] == v);
                    }
                } else {
                    assert(self.vertex_map@[slot as int] == v);
                }
            };
            assert((final(self)@, idx) =~~= spec_add_vertex(bold, position, normal, uv));
        }
        idx
    }

    /// Welds in the four corners of one grid cell quad, all sharing the
    /// quad's face normal, and appends its two triangles, split along the
    /// shorter diagonal (the first, `v0 - v3`, at a tie).
    pub fn add_quad(
        &mut self,
        v0: (i64, i64, i64),
        v1: (i64, i64, i64),
        v2: (i64, i64, i64),
        v3: (i64, i64, i64),
        uvs: ((u16, u16), (u16, u16), (u16, u16), (u16, u16)),
    )
        requires
            old(self).wf(),
            unit_quad(v0, v1, v2, v3),
            old(self)@.positions.len() + 4 <= 0xffff_ffff,
        ensures
            final(self).wf(),
            final(self)@ == spec_add_quad(old(self)@, v0, v1, v2, v3, uvs),
    {
        let ax = v0.0 - v3.0;
        let ay = v0.1 - v3.1;
        let az = v0.2 - v3.2;
        let bx = v2.0 - v1.0;
        let by = v2.1 - v1.1;
        let bz = v2.2 - v1.2;
        proof {
            lemma_mul_bound(ay as int, bz as int, 0x1_0000_0000, 1000);
            lemma_mul_bound(az as int, by as int, 1000, 0x1_0000_0000);
            lemma_mul_bound(az as int, bx as int, 1000, 1000);
            lemma_mul_bound(ax as int, bz as int, 1000, 1000);
            lemma_mul_bound(ax as int, by as int, 1000, 0x1_0000_0000);
            lemma_mul_bound(ay as int, bx as int, 0x1_0000_0000, 1000);
        }
        let normal = (ay * bz - az * by, az * bx - ax * bz, ax * by - ay * bx);
        proof {
            assert(normal == quad_normal(v0, v1, v2, v3));
        }
        let dy0 = v0.1 - v3.1;
        let dy1 = v1.1 - v2.1;
        proof {
            lemma_mul_bound(dy0 as int, dy0 as int, 0x1_0000_0000, 0x1_0000_0000);
            lemma_mul_bound(dy1 as int, dy1 as int, 0x1_0000_0000, 0x1_0000_0000);
        }
        let d0 = 2_000_000i128 + (dy0 as i128) * (dy0 as i128);
        let d1 = 2_000_000i128 + (dy1 as i128) * (dy1 as i128);
        proof {
            assert((v0.0 - v3.0) * (v0.0 - v3.0) == 1_000_000) by (nonlinear_arith)
                requires
                    v0.0 - v3.0 == -1000,
            ;
            assert((v0.2 - v3.2) * (v0.2 - v3.2) == 1_000_000) by (nonlinear_arith)
                requires
                    v0.2 - v3.2 == -1000,
            ;
            assert((v1.0 - v2.0) * (v1.0 - v2.0) == 1_000_000) by (nonlinear_arith)
                requires
                    v1.0 - v2.0 == 1000,
            ;
            assert((v1.2 - v2.2) * (v1.2 - v2.2) == 1_000_000) by (nonlinear_arith)
                requires
                    v1.2 - v2.2 == -1000,
            ;
            assert((d0 >= d1) == split_diag0(v0, v1, v2, v3));
        }
        let i0 = self.add_vertex(v0, normal, uvs.0);
        let i1 = self.add_vertex(v1, normal, uvs.1);
        let i2 = self.add_vertex(v2, normal, uvs.2);
        let i3 = self.add_vertex(v3, normal, uvs.3);
        let ghost b3 = self@;
        proof {
            assert(i0 < b3.positions.len());
            assert(i1 < b3.positions.len());
            assert(i2 < b3.positions.len());
            assert(i3 < b3.positions.len());
        }
        if d0 >= d1 {
            self.indices.push(i0);
            self.indices.push(i3);
            self.indices.push(i1);
            self.indices.push(i0);
            self.indices.push(i2);
            self.indices.push(i3);
            proof {
                assert(self@.indices =~= b3.indices + seq![i0, i3, i1, i0, i2, i3]);
                assert(self@.positions == b3.positions && self@.uvs == b3.uvs);
                assert(builder_wf(b3));
                assert forall|i2: int, j2: int|
                    0 <= i2 < j2 < self.vertex_map@.len() implies key_lt(
                    builder_key(self@, #[trigger] self.vertex_map@[i2] as int),
                    builder_key(self@, #[trigger] self.vertex_map@[j2] as int),
                ) by {
                    assert(builder_key(self@, self.vertex_map@[i2] as int) == builder_key(
                        b3,
                        self.vertex_map@[i2] as int,
                    ));
                    assert(builder_key(self@, self.vertex_map@[j2] as int) == builder_key(
                        b3,
                        self.vertex_map@[j2] as int,
                    ));
                };
                assert forall|v: u32| v < self.positions@.len() implies
                    #[trigger] self.vertex_map@.contains(v) by {};
                assert forall|i2: int, j2: int|
                    0 <= i2 < j2 < self@.positions.len() implies builder_key(self@, i2)
                    != builder_key(self@, j2) by {
                    assert(builder_key(self@, i2) == builder_key(b3, i2));
                    assert(builder_key(self@, j2) == builder_key(b3, j2));
                };
                assert forall|t: int| 0 <= t < self@.indices.len() implies
                    (#[trigger] self@.indices[t]) < self@.positions.len() by {
                    if t >= b3.indices.len() {
                        assert(self@.indices[t] == i0 || self@.indices[t] == i1
                            || self@.indices[t] == i2 || self@.indices[t] == i3);
                    }
                };
                assert(self@.indices.len() % 3 == 0) by {
                    assert(self@.indices.len() == b3.indices.len() + 6);
                };
                assert(self@ =~~= spec_add_quad(old(self)@, v0, v1, v2, v3, uvs));
            }
        } else {
            self.indices.push(i1);
            self.indices.push(i2);
            self.indices.push(i3);
            self.indices.push(i1);
            self.indices.push(i0);
            self.indices.push(i2);
            proof {
                assert(self@.indices =~= b3.indices + seq![i1, i2, i3, i1, i0, i2]);
                assert(self@.positions == b3.positions && self@.uvs == b3.uvs);
                assert(builder_wf(b3));
                assert forall|i2: int, j2: int|
                    0 <= i2 < j2 < self.vertex_map@.len() implies key_lt(
                    builder_key(self@, #[trigger] self.vertex_map@[i2] as int),
                    builder_key(self@, #[trigger] self.vertex_map@[j2] as int),
                ) by {
                    assert(builder_key(self@, self.vertex_map@[i2] as int) == builder_key(
                        b3,
                        self.vertex_map@[i2] as int,
                    ));
                    assert(builder_key(self@, self.vertex_map@[j2] as int) == builder_key(
                        b3,
                        self.vertex_map@[j2] as int,
                    ));
                };
                assert forall|v: u32| v < self.positions@.len() implies
                    #[trigger] self.vertex_map@.contains(v) by {};
                assert forall|i2: int, j2: int|
                    0 <= i2 < j2 < self@.positions.len() implies builder_key(self@, i2)
                    != builder_key(self@, j2) by {
                    assert(builder_key(self@, i2) == builder_key(b3, i2));
                    assert(builder_key(self@, j2) == builder_key(b3, j2));
                };
                assert forall|t: int| 0 <= t < self@.indices.len() implies
                    (#[trigger] self@.indices[t]) < self@.positions.len() by {
                    if t >= b3.indices.len() {
                        assert(self@.indices[t] == i0 || self@.indices[t] == i1
                            || self@.indices[t] == i2 || self@.indices[t] == i3);
                    }
                };
                assert(self@.indices.len() % 3 == 0) by {
                    assert(self@.indices.len() == b3.indices.len() + 6);
                };
                assert(self@ =~~= spec_add_quad(old(self)@, v0, v1, v2, v3, uvs));
            }
        }
    }
}

/// One finished indexed mesh: positions in thousandths of a world unit,
/// unnormalized face normals, texture coordinates in `1 / 65535` units,
/// and a triangle index list.
#[derive(Debug)]
pub struct MeshData {
    pub positions: Vec<(i64, i64, i64)>,
    pub normals: Vec<(i64, i64, i64)>,
    pub uvs: Vec<(u16, u16)>,
    pub indices: Vec<u32>,
}

impl View for MeshData {
    type V = BuilderView;

    open spec fn view(&self) -> BuilderView {
        BuilderView {
            positions: self.positions@,
            normals: self.normals@,
            uvs: self.uvs@,
            indices: self.indices@,
        }
    }
}

impl MeshBuilderData {
    /// Finishes the mesh, handing the accumulated buffers out.
    pub fn build_mesh(self) -> (r: MeshData)
        ensures
            r@ == self@,
    {
        let r = MeshData {
            positions: self.positions,
            normals: self.normals,
            uvs: self.uvs,
            indices: self.indices,
        };
        proof {
            assert(r@ =~~= self@);
        }
        r
    }
}

/// The fixed texture-coordinate 4-tuple for each atlas rotation, corner
/// order `v0 v1 v2 v3`.
pub open spec fn spec_rotate_uvs(rotation: Rotation) -> (
    (u16, u16),
    (u16, u16),
    (u16, u16),
    (u16, u16),
) {
    match rotation {
        Rotation::R0 => ((UV_MAX, UV_MAX), (0, UV_MAX), (UV_MAX, 0), (0, 0)),
        Rotation::R1 => ((UV_MAX, 0), (UV_MAX, UV_MAX), (0, 0), (0, UV_MAX)),
        Rotation::R2 => ((0, 0), (UV_MAX, 0), (0, UV_MAX), (UV_MAX, UV_MAX)),
        Rotation::R3 => ((0, UV_MAX), (0, 0), (UV_MAX, UV_MAX), (UV_MAX, 0)),
    }
}

/// Selects the texture coordinates that realize a cell's atlas rotation.
pub fn rotate_uvs(rotation: Rotation) -> (r: ((u16, u16), (u16, u16), (u16, u16), (u16, u16)))
    ensures
        r == spec_rotate_uvs(rotation),
{
    match rotation {
        Rotation::R0 => ((UV_MAX, UV_MAX), (0, UV_MAX), (UV_MAX, 0), (0, 0)),
        Rotation::R1 => ((UV_MAX, 0), (UV_MAX, UV_MAX), (0, 0), (0, UV_MAX)),
        Rotation::R2 => ((0, 0), (UV_MAX, 0), (0, UV_MAX), (UV_MAX, UV_MAX)),
        Rotation::R3 => ((0, UV_MAX), (0, 0), (UV_MAX, UV_MAX), (UV_MAX, 0)),
    }
}

/// The cell a quad corner resolves to: local index 128 on an axis reads
/// local index 0 of the next page along that axis, so quads stitch
/// seamlessly across page seams.  A page coordinate at the numeric limit
/// has no next page, so such a corner is missing.
pub open spec fn spec_stitched_cell(m: MapView, px: i32, pz: i32, x: int, z: int) -> Option<
    ElevCell,
> {
    if (x == 128 && px == i32::MAX) || (z == 128 && pz == i32::MAX) {
        None
    } else if x == 128 && z == 128 {
        m.cell((px + 1) as i32, (pz + 1) as i32, 0, 0)
    } else if x == 128 {
        m.cell((px + 1) as i32, pz, 0, z)
    } else if z == 128 {
        m.cell(px, (pz + 1) as i32, x, 0)
    } else {
        m.cell(px, pz, x, z)
    }
}

/// Fetches a quad corner, stitching across page seams: local index 128
/// maps to local index 0 of the adjacent page on that axis.
pub fn get_cell_stitched(map: &ElevMap, page_x: i32, page_z: i32, x: u16, z: u16) -> (r: Option<
    &ElevCell,
>)
    requires
        map.wf(),
        x <= 128,
        z <= 128,
    ensures
        match r {
            Some(c) => spec_stitched_cell(map@, page_x, page_z, x as int, z as int) == Some(*c),
            None => spec_stitched_cell(map@, page_x, page_z, x as int, z as int) is None,
        },
{
    if (x == 128 && page_x == i32::MAX) || (z == 128 && page_z == i32::MAX) {
        return None;
    }
    let (tpx, tx) = if x == 128 {
        (page_x + 1, 0u16)
    } else {
        (page_x, x)
    };
    let (tpz, tz) = if z == 128 {
        (page_z + 1, 0u16)
    } else {
        (page_z, z)
    };
    map.get_cell(tpx, tpz, tx as u8, tz as u8)
}

/// True when some populated cell of the map carries the texture id.
pub open spec fn map_has_texture(m: MapView, tid: u32) -> bool {
    exists|p: (i32, i32, int, int)| match #[trigger] m.cell(p.0, p.1, p.2, p.3) {
        Some(c) => c.texture_id == tid,
        None => false,
    }
}


/// An accumulator that holds nothing yet.
pub open spec fn empty_builder() -> BuilderView {
    BuilderView {
        positions: Seq::empty(),
        normals: Seq::empty(),
        uvs: Seq::empty(),
        indices: Seq::empty(),
    }
}

/// Index of the first accumulator carrying `tid`, or `bs.len()`.
pub open spec fn find_tid(bs: Seq<(u32, BuilderView)>, tid: u32) -> int
    decreases bs.len(),
{
    if bs.len() == 0 {
        0
    } else if bs[0].0 == tid {
        0
    } else {
        1 + find_tid(bs.drop_first(), tid)
    }
}

pub proof fn lemma_find_tid(bs: Seq<(u32, BuilderView)>, tid: u32)
    ensures
        0 <= find_tid(bs, tid) <= bs.len(),
        find_tid(bs, tid) < bs.len() ==> bs[find_tid(bs, tid)].0 == tid,
        forall|j: int| 0 <= j < find_tid(bs, tid) ==> bs[j].0 != tid,
    decreases bs.len(),
{
    if bs.len() > 0 && bs[0].0 != tid {
        lemma_find_tid(bs.drop_first(), tid);
        assert forall|j: int| 0 <= j < find_tid(bs, tid) implies bs[j].0 != tid by {
            if j > 0 {
                assert(bs.drop_first()[j - 1].0 != tid);
            }
        };
    }
}

/// What observing one grid cell does to the per-texture accumulators: a
/// missing cell does nothing; a present cell first registers its texture's
/// accumulator, then, when all three stitched neighbor corners resolve and
/// the 32-bit index capacity allows, welds one quad at the cell's world
/// position into it, with the cell's rotation choosing the texture
/// coordinates.
pub open spec fn spec_cell_step(
    m: MapView,
    bs: Seq<(u32, BuilderView)>,
    px: i32,
    pz: i32,
    x: int,
    z: int,
) -> Seq<(u32, BuilderView)> {
    match spec_stitched_cell(m, px, pz, x, z) {
        None => bs,
        Some(c0) => {
            let bi = find_tid(bs, c0.texture_id);
            let bs1 = if bi < bs.len() {
                bs
            } else {
                bs.push((c0.texture_id, empty_builder()))
            };
            match spec_stitched_cell(m, px, pz, x + 1, z) {
                None => bs1,
                Some(c1) => match spec_stitched_cell(m, px, pz, x, z + 1) {
                    None => bs1,
                    Some(c2) => match spec_stitched_cell(m, px, pz, x + 1, z + 1) {
                        None => bs1,
                        Some(c3) => {
                            let b = bs1[bi].1;
                            if b.positions.len() <= 0xffff_ffff - 4 {
                                let wx = x + 128 * (px as int);
                                let wz = z + 128 * (pz as int);
                                let v0 = ((wx * 1000) as i64, c0.height as i64, (wz * 1000) as i64);
                                let v1 = (
                                    (wx * 1000 + 1000) as i64,
                                    c1.height as i64,
                                    (wz * 1000) as i64,
                                );
                                let v2 = (
                                    (wx * 1000) as i64,
                                    c2.height as i64,
                                    (wz * 1000 + 1000) as i64,
                                );
                                let v3 = (
                                    (wx * 1000 + 1000) as i64,
                                    c3.height as i64,
                                    (wz * 1000 + 1000) as i64,
                                );
                                bs1.update(
                                    bi,
                                    (
                                        c0.texture_id,
                                        spec_add_quad(
                                            b,
                                            v0,
                                            v1,
                                            v2,
                                            v3,
                                            spec_rotate_uvs(c0.rotation),
                                        ),
                                    ),
                                )
                            } else {
                                bs1
                            }
                        },
                    },
                },
            }
        },
    }
}

/// The accumulators after the first `n` cells of row `z` of one page.
pub open spec fn spec_row_upto(
    m: MapView,
    bs: Seq<(u32, BuilderView)>,
    px: i32,
    pz: i32,
    z: int,
    n: int,
) -> Seq<(u32, BuilderView)>
    decreases n,
{
    if n <= 0 {
        bs
    } else {
        spec_cell_step(m, spec_row_upto(m, bs, px, pz, z, n - 1), px, pz, n - 1, z)
    }
}

/// The accumulators after the first `n` rows of one page.
pub open spec fn spec_page_upto(
    m: MapView,
    bs: Seq<(u32, BuilderView)>,
    px: i32,
    pz: i32,
    n: int,
) -> Seq<(u32, BuilderView)>
    decreases n,
{
    if n <= 0 {
        bs
    } else {
        spec_row_upto(m, spec_page_upto(m, bs, px, pz, n - 1), px, pz, n - 1, 128)
    }
}

/// The accumulators after the first `n` pages of one page row.
pub open spec fn spec_page_row_upto(
    m: MapView,
    bs: Seq<(u32, BuilderView)>,
    min_x: int,
    pz: i32,
    n: int,
) -> Seq<(u32, BuilderView)>
    decreases n,
{
    if n <= 0 {
        bs
    } else {
        spec_page_upto(m, spec_page_row_upto(m, bs, min_x, pz, n - 1), (min_x + n - 1) as i32, pz, 128)
    }
}

/// The accumulators after the first `n` page rows of the bounding
/// rectangle.
pub open spec fn spec_rect_upto(
    m: MapView,
    bs: Seq<(u32, BuilderView)>,
    min_x: int,
    max_x: int,
    min_z: int,
    n: int,
) -> Seq<(u32, BuilderView)>
    decreases n,
{
    if n <= 0 {
        bs
    } else {
        spec_page_row_upto(
            m,
            spec_rect_upto(m, bs, min_x, max_x, min_z, n - 1),
            min_x,
            (min_z + n - 1) as i32,
            max_x - min_x + 1,
        )
    }
}

/// The per-texture meshes of a whole map: every page of the bounding
/// rectangle, walked page row by page row, page by page, cell row by cell
/// row, cell by cell, each cell folded in by [`spec_cell_step`].  This is
/// the exact value [`create_terrain_meshes`] returns.
pub open spec fn spec_build_meshes(m: MapView) -> Seq<(u32, BuilderView)> {
    let b = spec_bounds(m.order);
    spec_rect_upto(
        m,
        Seq::empty(),
        b.0 as int,
        b.2 as int,
        b.1 as int,
        b.3 as int - b.1 as int + 1,
    )
}

/// The texture ids and mesh contents of a finished result.
pub open spec fn mesh_views(r: Seq<(u32, MeshData)>) -> Seq<(u32, BuilderView)> {
    r.map_values(|p: (u32, MeshData)| (p.0, p.1@))
}

/// The texture ids and mesh contents of the in-progress accumulators.
spec fn builder_views(bs: Seq<(u32, MeshBuilderData)>) -> Seq<(u32, BuilderView)> {
    bs.map_values(|p: (u32, MeshBuilderData)| (p.0, p.1@))
}

/// Index of the accumulator for one texture id, if any.
fn find_builder(builders: &Vec<(u32, MeshBuilderData)>, tid: u32) -> (r: Option<usize>)
    ensures
        match r {
            Some(i) => i < builders@.len() && builders@[i as int].0 == tid && forall|m: int|
                0 <= m < i ==> (#[trigger] builders@[m]).0 != tid,
            None => forall|m: int| 0 <= m < builders@.len()
                ==> (#[trigger] builders@[m]).0 != tid,
        },
{
    let mut i: usize = 0;
    while i < builders.len()
        invariant
            i <= builders@.len(),
            forall|m: int| 0 <= m < i ==> (#[trigger] builders@[m]).0 != tid,
        decreases builders@.len() - i,
    {
        if builders[i].0 == tid {
            return Some(i);
        }
        i += 1;
    }
    None
}

/// Walks every page of the bounding rectangle cell by cell and emits one
/// welded, indexed triangle mesh per texture id observed on a cell, in
/// first-observation order.  Each cell with all four stitched corners
/// present contributes one quad to its texture's mesh; a cell with any
/// corner missing contributes none, but its texture is still registered,
/// so a texture whose every quad is skipped still maps to an empty mesh.
/// The result equals [`spec_build_meshes`] of the map, so it is a
/// function of the map alone; in addition, texture ids are unique, every
/// returned mesh is structurally sound (parallel attributes, welded
/// vertices, in-range whole-triangle indices), and every returned texture
/// id is carried by some populated cell.
#[verifier::loop_isolation(false)]
#[verifier::rlimit(100)]
pub fn create_terrain_meshes(map: &ElevMap) -> (r: Vec<(u32, MeshData)>)
    requires
        map.wf(),
    ensures
        mesh_views(r@) == spec_build_meshes(map@),
        forall|i: int, j: int| 0 <= i < j < r@.len()
            ==> (#[trigger] r@[i]).0 != (#[trigger] r@[j]).0,
        forall|i: int| 0 <= i < r@.len() ==> builder_wf((#[trigger] r@[i]).1@),
        forall|i: int| 0 <= i < r@.len() ==> map_has_texture(map@, (#[trigger] r@[i]).0),
{
    let ghost m = map@;
    let (min_x, min_z, max_x, max_z) = map.get_bounds();
    let mut builders: Vec<(u32, MeshBuilderData)> = Vec::new();
    proof {
        assert(builder_views(builders@) =~= Seq::<(u32, BuilderView)>::empty());
    }
    let mut pz: i64 = min_z as i64;
    while pz <= max_z as i64
        invariant
            min_z as i64 <= pz <= i32::MAX as i64 + 1,
            min_z <= max_z ==> pz <= max_z as i64 + 1,
            min_z > max_z ==> pz == min_z as i64,
            builder_views(builders@) == spec_rect_upto(
                m,
                Seq::empty(),
                min_x as int,
                max_x as int,
                min_z as int,
                pz as int - min_z as int,
            ),
            forall|i: int, j: int| 0 <= i < j < builders@.len()
                ==> (#[trigger] builders@[i]).0 != (#[trigger] builders@[j]).0,
            forall|i: int| 0 <= i < builders@.len() ==> (#[trigger] builders@[i]).1.wf(),
            forall|i: int| 0 <= i < builders@.len() ==> map_has_texture(
                m,
                (#[trigger] builders@[i]).0,
            ),
        decreases max_z as i64 - pz + 1,
    {
        proof {
            lemma_bounds_sentinel(map@.order, (min_x, min_z, max_x, max_z));
            if map@.order.len() == 0 {
                assert(min_z > max_z);
            }
            assert(min_x <= max_x);
        }
        let ghost base_z = builder_views(builders@);
        let mut px: i64 = min_x as i64;
        while px <= max_x as i64
            invariant
                min_x as i64 <= px <= max_x as i64 + 1,
                min_z as i64 <= pz <= max_z as i64,
                builder_views(builders@) == spec_page_row_upto(
                    m,
                    base_z,
                    min_x as int,
                    pz as i32,
                    px as int - min_x as int,
                ),
                forall|i: int, j: int| 0 <= i < j < builders@.len()
                    ==> (#[trigger] builders@[i]).0 != (#[trigger] builders@[j]).0,
                forall|i: int| 0 <= i < builders@.len() ==> (#[trigger] builders@[i]).1.wf(),
                forall|i: int| 0 <= i < builders@.len() ==> map_has_texture(
                    m,
                    (#[trigger] builders@[i]).0,
                ),
            decreases max_x as i64 - px + 1,
        {
            let ghost base_px = builder_views(builders@);
            let mut z: u16 = 0;
            while z < 128
                invariant
                    z <= 128,
                    min_x as i64 <= px <= max_x as i64,
                    min_z as i64 <= pz <= max_z as i64,
                    builder_views(builders@) == spec_page_upto(
                        m,
                        base_px,
                        px as i32,
                        pz as i32,
                        z as int,
                    ),
                    forall|i: int, j: int| 0 <= i < j < builders@.len()
                        ==> (#[trigger] builders@[i]).0 != (#[trigger] builders@[j]).0,
                    forall|i: int| 0 <= i < builders@.len() ==> (#[trigger] builders@[i]).1.wf(),
                    forall|i: int| 0 <= i < builders@.len() ==> map_has_texture(
                        m,
                        (#[trigger] builders@[i]).0,
                    ),
                decreases 128 - z,
            {
                let ghost base_row = builder_views(builders@);
                let mut x: u16 = 0;
                while x < 128
                    invariant
                        x <= 128,
                        z < 128,
                        min_x as i64 <= px <= max_x as i64,
                        min_z as i64 <= pz <= max_z as i64,
                        builder_views(builders@) == spec_row_upto(
                            m,
                            base_row,
                            px as i32,
                            pz as i32,
                            z as int,
                            x as int,
                        ),
                        forall|i: int, j: int| 0 <= i < j < builders@.len()
                            ==> (#[trigger] builders@[i]).0 != (#[trigger] builders@[j]).0,
                        forall|i: int| 0 <= i < builders@.len()
                            ==> (#[trigger] builders@[i]).1.wf(),
                        forall|i: int| 0 <= i < builders@.len() ==> map_has_texture(
                            m,
                            (#[trigger] builders@[i]).0,
                        ),
                    decreases 128 - x,
                {
                    let ghost bs0 = builder_views(builders@);
                    let pxi = px as i32;
                    let pzi = pz as i32;
                    let c0 = get_cell_stitched(map, pxi, pzi, x, z);
                    if let Some(c0r) = c0 {
                        let cell = *c0r;
                        proof {
                            let p = (pxi, pzi, x as int, z as int);
                            assert(m.cell(p.0, p.1, p.2, p.3) == Some(cell));
                            assert(map_has_texture(m, cell.texture_id));
                            lemma_find_tid(bs0, cell.texture_id);
                        }
                        // every observed texture id gets its mesh, even one
                        // whose quads are all skipped at the page edge
                        let bi = match find_builder(&builders, cell.texture_id) {
                            Some(i) => {
                                proof {
                                    let f = find_tid(bs0, cell.texture_id);
                                    assert(bs0[i as int].0 == cell.texture_id);
                                    if f < i as int {
                                        assert(builders@[f].0 != cell.texture_id);
                                    }
                                    if (i as int) < f {
                                        assert(bs0[i as int].0 != cell.texture_id);
                                    }
                                    assert(f == i as int);
                                }
                                i
                            },
                            None => {
                                proof {
                                    let f = find_tid(bs0, cell.texture_id);
                                    if f < bs0.len() {
                                        assert(builders@[f].0 == cell.texture_id);
                                    }
                                    assert(f == bs0.len());
                                }
                                let ghost bold = builders@;
                                builders.push((cell.texture_id, MeshBuilderData::new()));
                                proof {
                                    assert(builder_views(builders@) =~~= bs0.push(
                                        (cell.texture_id, empty_builder())));
                                }
                                builders.len() - 1
                            },
                        };
                        let ghost bs1 = if find_tid(bs0, cell.texture_id) < bs0.len() {
                            bs0
                        } else {
                            bs0.push((cell.texture_id, empty_builder()))
                        };
                        proof {
                            assert(builder_views(builders@) == bs1);
                            assert(bi as int == find_tid(bs0, cell.texture_id));
                            assert(bs1[bi as int] == (builders@[bi as int].0, builders@[
                                bi as int].1@));
                        }
                        let c1 = get_cell_stitched(map, pxi, pzi, x + 1, z);
                        let c2 = get_cell_stitched(map, pxi, pzi, x, z + 1);
                        let c3 = get_cell_stitched(map, pxi, pzi, x + 1, z + 1);
                        if let (Some(c1r), Some(c2r), Some(c3r)) = (c1, c2, c3) {
                            let h1 = c1r.height;
                            let h2 = c2r.height;
                            let h3 = c3r.height;
                            if builders[bi].1.vertex_count() <= 0xffff_ffff - 4 {
                                let wx: i64 = x as i64 + 128 * (px as i64);
                                let wz: i64 = z as i64 + 128 * (pz as i64);
                                let v0 = (wx * 1000, cell.height as i64, wz * 1000);
                                let v1 = (wx * 1000 + 1000, h1 as i64, wz * 1000);
                                let v2 = (wx * 1000, h2 as i64, wz * 1000 + 1000);
                                let v3 = (wx * 1000 + 1000, h3 as i64, wz * 1000 + 1000);
                                let uvs = rotate_uvs(cell.rotation);
                                let ghost bq = builders@[bi as int].1@;
                                builders[bi].1.add_quad(v0, v1, v2, v3, uvs);
                                proof {
                                    assert forall|i: int, j: int|
                                        0 <= i < j < builders@.len() implies
                                        (#[trigger] builders@[i]).0 != (
                                        #[trigger] builders@[j]).0 by {};
                                    let wxs = x as int + 128 * (pxi as int);
                                    let wzs = z as int + 128 * (pzi as int);
                                    assert(wx as int == wxs && wz as int == wzs);
                                    assert(v0 == ((wxs * 1000) as i64, cell.height as i64, (wzs
                                        * 1000) as i64));
                                    assert(v1 == ((wxs * 1000 + 1000) as i64, h1 as i64, (wzs
                                        * 1000) as i64));
                                    assert(v2 == ((wxs * 1000) as i64, h2 as i64, (wzs * 1000
                                        + 1000) as i64));
                                    assert(v3 == ((wxs * 1000 + 1000) as i64, h3 as i64, (wzs
                                        * 1000 + 1000) as i64));
                                    assert(bq == bs1[bi as int].1);
                                    assert(builder_views(builders@) =~= bs1.update(
                                        bi as int,
                                        (
                                            cell.texture_id,
                                            spec_add_quad(bq, v0, v1, v2, v3, uvs),
                                        ),
                                    ));
                                    assert(builder_views(builders@) == spec_cell_step(
                                        m,
                                        bs0,
                                        pxi,
                                        pzi,
                                        x as int,
                                        z as int,
                                    ));
                                }
                            } else {
                                proof {
                                    assert(builder_views(builders@) == spec_cell_step(
                                        m,
                                        bs0,
                                        pxi,
                                        pzi,
                                        x as int,
                                        z as int,
                                    ));
                                }
                            }
                        } else {
                            proof {
                                assert(builder_views(builders@) == spec_cell_step(
                                    m,
                                    bs0,
                                    pxi,
                                    pzi,
                                    x as int,
                                    z as int,
                                ));
                            }
                        }
                    } else {
                        proof {
                            assert(builder_views(builders@) == spec_cell_step(
                                m,
                                bs0,
                                pxi,
                                pzi,
                                x as int,
                                z as int,
                            ));
                        }
                    }
                    proof {
                        assert(builder_views(builders@) == spec_row_upto(
                            m,
                            base_row,
                            px as i32,
                            pz as i32,
                            z as int,
                            x as int + 1,
                        ));
                    }
                    x += 1;
                }
                proof {
                    assert(builder_views(builders@) == spec_page_upto(
                        m,
                        base_px,
                        px as i32,
                        pz as i32,
                        z as int + 1,
                    ));
                }
                z += 1;
            }
            proof {
                let n2 = px as int - min_x as int + 1;
                assert((min_x as int + n2 - 1) as i32 == px as i32);
                assert(builder_views(builders@) == spec_page_row_upto(
                    m,
                    base_z,
                    min_x as int,
                    pz as i32,
                    n2,
                ));
            }
            px += 1;
        }
        proof {
            let n2 = pz as int - min_z as int + 1;
            assert((min_z as int + n2 - 1) as i32 == pz as i32);
            assert(px as int - min_x as int == max_x as int - min_x as int + 1);
            assert(builder_views(builders@) == spec_rect_upto(
                m,
                Seq::empty(),
                min_x as int,
                max_x as int,
                min_z as int,
                n2,
            ));
        }
        pz += 1;
    }
    proof {
        if min_z as i64 > max_z as i64 {
            assert(pz as int - min_z as int == 0);
            assert(max_z as int - min_z as int + 1 <= 0);
            assert(spec_rect_upto(
                m,
                Seq::empty(),
                min_x as int,
                max_x as int,
                min_z as int,
                max_z as int - min_z as int + 1,
            ) == Seq::<(u32, BuilderView)>::empty());
        }
        assert(builder_views(builders@) == spec_build_meshes(m));
    }
    let ghost target = spec_build_meshes(m);
    let mut out: Vec<(u32, MeshData)> = Vec::new();
    let mut rem = builders;
    proof {
        assert(mesh_views(out@) + builder_views(rem@) =~= target);
    }
    while rem.len() > 0
        invariant
            mesh_views(out@) + builder_views(rem@) == target,
            forall|i: int, j: int| 0 <= i < j < out@.len()
                ==> (#[trigger] out@[i]).0 != (#[trigger] out@[j]).0,
            forall|i: int| 0 <= i < out@.len() ==> builder_wf((#[trigger] out@[i]).1@),
            forall|i: int| 0 <= i < out@.len() ==> map_has_texture(m, (#[trigger] out@[i]).0),
            forall|i: int, j: int| 0 <= i < j < rem@.len()
                ==> (#[trigger] rem@[i]).0 != (#[trigger] rem@[j]).0,
            forall|i: int| 0 <= i < rem@.len() ==> (#[trigger] rem@[i]).1.wf(),
            forall|i: int| 0 <= i < rem@.len() ==> map_has_texture(m, (#[trigger] rem@[i]).0),
            forall|i: int, j: int| 0 <= i < out@.len() && 0 <= j < rem@.len()
                ==> (#[trigger] out@[i]).0 != (#[trigger] rem@[j]).0,
        decreases rem@.len(),
    {
        let ghost out_old = out@;
        let ghost rem_old = rem@;
        let (tid, b) = rem.remove(0);
        proof {
            b.lemma_wf_view();
        }
        let mesh = b.build_mesh();
        out.push((tid, mesh));
        proof {
            assert(mesh_views(out@) =~= mesh_views(out_old).push((tid, b@)));
            assert(builder_views(rem_old) =~= seq![(tid, b@)] + builder_views(rem@));
            assert(mesh_views(out@) + builder_views(rem@) =~= mesh_views(out_old)
                + builder_views(rem_old));
        }
    }
    proof {
        assert(mesh_views(out@) + builder_views(rem@) =~= mesh_views(out@));
    }
    out
}

} // verus!
