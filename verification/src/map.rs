//! The page-addressed spatial map: dense 128 x 128 pages of cells, keyed by
//! page coordinates, filled by rasterizing patch records.

use vstd::prelude::*;

use crate::dump::ElevDump;
use crate::entry::{ElevEntry, EntryView};

verus! {

/// Cells in one page.
pub const CELLS_PER_PAGE: usize = 128 * 128;

/// One of the four fixed 90-degree texture-atlas orientations.
#[derive(Debug, Clone, Copy, PartialEq, Eq, Structural)]
pub enum Rotation {
    R0,
    R1,
    R2,
    R3,
}

impl Default for Rotation {
    fn default() -> (r: Self)
        ensures
            r == Rotation::R0,
    {
        Rotation::R0
    }
}

/// One grid unit: a resolved texture id (top two bits stripped), a height,
/// and a texture rotation.
#[derive(Debug, Clone, Copy, PartialEq, Eq, Structural)]
pub struct ElevCell {
    pub texture_id: u32,
    pub rotation: Rotation,
    pub height: i32,
}

/// The cell that fills a page before any patch writes to it.
pub open spec fn default_cell() -> ElevCell {
    ElevCell { texture_id: 0, rotation: Rotation::R0, height: 0 }
}

/// The contents of a page before any patch writes to it.
pub open spec fn default_page_seq() -> Seq<ElevCell> {
    Seq::new(CELLS_PER_PAGE as nat, |i: int| default_cell())
}

/// A dense 128 x 128 grid of cells, stored row by row: local cell `(x, z)`
/// lives at index `z * 128 + x`.
#[derive(Debug)]
pub struct ElevPage {
    cells: Vec<ElevCell>,
}

impl View for ElevPage {
    type V = Seq<ElevCell>;

    closed spec fn view(&self) -> Seq<ElevCell> {
        self.cells@
    }
}

impl ElevPage {
    /// A page holds exactly one cell per grid position.
    pub open spec fn wf(&self) -> bool {
        self@.len() == CELLS_PER_PAGE
    }

    /// A fresh page, every cell defaulted.
    pub fn new() -> (r: ElevPage)
        ensures
            r.wf(),
            r@ == default_page_seq(),
    {
        let mut cells: Vec<ElevCell> = Vec::new();
        while cells.len() < CELLS_PER_PAGE
            invariant
                cells@.len() <= CELLS_PER_PAGE,
                forall|i: int| 0 <= i < cells@.len() ==> cells@[i] == default_cell(),
            decreases CELLS_PER_PAGE - cells.len(),
        {
            cells.push(ElevCell { texture_id: 0, rotation: Rotation::R0, height: 0 });
        }
        let r = ElevPage { cells };
        proof {
            assert(r@ =~= default_page_seq());
        }
        r
    }

    /// The cell at local `(x, z)`, or `None` when either coordinate is
    /// outside `[0, 128)`.
    pub fn get_cell(&self, x: u8, z: u8) -> (r: Option<&ElevCell>)
        requires
            self.wf(),
        ensures
            match r {
                Some(c) => x < 128 && z < 128 && *c == self@[z as int * 128 + x as int],
                None => !(x < 128 && z < 128),
            },
    {
        if x < 128 && z < 128 {
            Some(&self.cells[(z as usize) * 128 + (x as usize)])
        } else {
            None
        }
    }

    /// Overwrites the cell at local `(x, z)`; coordinates outside `[0, 128)`
    /// are silently dropped.
    pub fn set_cell(&mut self, x: u8, z: u8, cell: ElevCell)
        requires
            old(self).wf(),
        ensures
            final(self).wf(),
            x < 128 && z < 128 ==> final(self)@ == old(self)@.update(
                z as int * 128 + x as int,
                cell,
            ),
            !(x < 128 && z < 128) ==> final(self)@ == old(self)@,
    {
        if x < 128 && z < 128 {
            let i = (z as usize) * 128 + (x as usize);
            self.cells[i] = cell;
        }
    }
}

/// Mathematical image of the whole map: the first-touch order of page
/// coordinates, and each page's cell contents.
#[verifier::ext_equal]
pub ghost struct MapView {
    pub order: Seq<(i32, i32)>,
    pub pages: Map<(i32, i32), Seq<ElevCell>>,
}

impl MapView {
    /// A map view of no pages at all.
    pub open spec fn empty() -> MapView {
        MapView { order: Seq::empty(), pages: Map::empty() }
    }

    /// True when the page at `(px, pz)` is populated.
    pub open spec fn has_page(self, px: i32, pz: i32) -> bool {
        self.pages.dom().contains((px, pz))
    }

    /// The cell at local `(x, z)` of page `(px, pz)`: `None` when the page
    /// is unpopulated or a coordinate is outside `[0, 128)`, the cell
    /// otherwise.
    pub open spec fn cell(self, px: i32, pz: i32, x: int, z: int) -> Option<ElevCell> {
        if self.has_page(px, pz) && 0 <= x < 128 && 0 <= z < 128 {
            Some(self.pages[(px, pz)][z * 128 + x])
        } else {
            None
        }
    }

    /// Coordinates are unique, every ordered coordinate is a populated page
    /// and the reverse, and every page is dense.
    pub open spec fn wf(self) -> bool {
        &&& forall|i: int, j: int| 0 <= i < j < self.order.len()
            ==> self.order[i] != self.order[j]
        &&& forall|k: (i32, i32)| #[trigger] self.pages.dom().contains(k) <==> self.order.contains(k)
        &&& forall|k: (i32, i32)| self.pages.dom().contains(k)
            ==> (#[trigger] self.pages[k]).len() == CELLS_PER_PAGE
    }
}

/// The sparse collection of pages, created lazily the first time a patch
/// touches them.
#[derive(Debug)]
pub struct ElevMap {
    pages: Vec<((i32, i32), ElevPage)>,
}

impl View for ElevMap {
    type V = MapView;

    closed spec fn view(&self) -> MapView {
        MapView {
            order: self.pages@.map_values(|p: ((i32, i32), ElevPage)| p.0),
            pages: Map::new(
                |k: (i32, i32)| exists|i: int|
                    0 <= i < self.pages@.len() && (#[trigger] self.pages@[i]).0 == k,
                |k: (i32, i32)| self.pages@[choose|i: int|
                    0 <= i < self.pages@.len() && (#[trigger] self.pages@[i]).0 == k].1@,
            ),
        }
    }
}

impl ElevMap {
    /// Page coordinates are stored at most once, and every stored page is
    /// dense.
    pub closed spec fn wf(&self) -> bool {
        &&& forall|i: int, j: int| 0 <= i < j < self.pages@.len()
            ==> (#[trigger] self.pages@[i]).0 != (#[trigger] self.pages@[j]).0
        &&& forall|i: int| 0 <= i < self.pages@.len() ==> (#[trigger] self.pages@[i]).1.wf()
    }

    /// The stored page at index `i` is what the view maps its coordinates to.
    proof fn lemma_view_page_at(&self, i: int)
        requires
            self.wf(),
            0 <= i < self.pages@.len(),
        ensures
            self@.pages.dom().contains(self.pages@[i].0),
            self@.pages[self.pages@[i].0] == self.pages@[i].1@,
            self@.order[i] == self.pages@[i].0,
    {
        let k = self.pages@[i].0;
        assert(exists|m: int| 0 <= m < self.pages@.len() && (#[trigger] self.pages@[m]).0 == k);
        let j = choose|m: int| 0 <= m < self.pages@.len() && (#[trigger] self.pages@[m]).0 == k;
        if i < j {
            assert(self.pages@[i].0 != self.pages@[j].0);
        }
        if j < i {
            assert(self.pages@[j].0 != self.pages@[i].0);
        }
    }

    /// A well-formed map has a well-formed view.
    pub proof fn lemma_view_wf(&self)
        requires
            self.wf(),
        ensures
            self@.wf(),
    {
        assert forall|k: (i32, i32)| #[trigger] self@.pages.dom().contains(k) implies
            self@.order.contains(k) by {
            let i = choose|m: int|
                0 <= m < self.pages@.len() && (#[trigger] self.pages@[m]).0 == k;
            assert(self@.order[i] == k);
        };
        assert forall|k: (i32, i32)| self@.order.contains(k) implies
            self@.pages.dom().contains(k) by {
            let i = choose|m: int| 0 <= m < self@.order.len() && self@.order[m] == k;
            assert(self.pages@[i].0 == k);
        };
        assert forall|k: (i32, i32)| self@.pages.dom().contains(k) implies
            (#[trigger] self@.pages[k]).len() == CELLS_PER_PAGE by {
            let i = choose|m: int|
                0 <= m < self.pages@.len() && (#[trigger] self.pages@[m]).0 == k;
            self.lemma_view_page_at(i);
        };
    }

    /// A map with no pages.
    pub fn new() -> (r: ElevMap)
        ensures
            r.wf(),
            r@ == MapView::empty(),
    {
        let r = ElevMap { pages: Vec::new() };
        proof {
            assert(r@.pages =~= Map::<(i32, i32), Seq<ElevCell>>::empty());
            assert(r@.order =~= Seq::<(i32, i32)>::empty());
            assert(r@ =~~= MapView::empty());
        }
        r
    }

    /// Index of the stored page with the given coordinates, if any.
    fn find_page(&self, px: i32, pz: i32) -> (r: Option<usize>)
        requires
            self.wf(),
        ensures
            match r {
                Some(i) => i < self.pages@.len() && self.pages@[i as int].0 == (px, pz),
                None => !self@.has_page(px, pz),
            },
    {
        let mut i: usize = 0;
        while i < self.pages.len()
            invariant
                i <= self.pages@.len(),
                forall|m: int| 0 <= m < i ==> (#[trigger] self.pages@[m]).0 != (px, pz),
            decreases self.pages@.len() - i,
        {
            let k = self.pages[i].0;
            if k.0 == px && k.1 == pz {
                return Some(i);
            }
            i += 1;
        }
        proof {
            if self@.has_page(px, pz) {
                let m = choose|m: int|
                    0 <= m < self.pages@.len() && (#[trigger] self.pages@[m]).0 == (px, pz);
                assert(self.pages@[m].0 != (px, pz));
            }
        }
        None
    }

    /// The number of populated pages.
    pub fn page_count(&self) -> (r: usize)
        ensures
            r == self@.order.len(),
    {
        self.pages.len()
    }

    /// The coordinates of every populated page, in first-touch order.
    pub fn iter_pages(&self) -> (r: Vec<(i32, i32)>)
        ensures
            r@ == self@.order,
    {
        let mut r: Vec<(i32, i32)> = Vec::new();
        let mut i: usize = 0;
        while i < self.pages.len()
            invariant
                i <= self.pages@.len(),
                r@.len() == i,
                forall|m: int| 0 <= m < i ==> r@[m] == (#[trigger] self.pages@[m]).0,
            decreases self.pages@.len() - i,
        {
            r.push(self.pages[i].0);
            i += 1;
        }
        proof {
            assert(r@ =~= self@.order);
        }
        r
    }

    /// The cell at local `(x, z)` of page `(page_x, page_z)`, or `None` when
    /// that page is unpopulated or a coordinate is outside `[0, 128)`.
    pub fn get_cell(&self, page_x: i32, page_z: i32, x: u8, z: u8) -> (r: Option<&ElevCell>)
        requires
            self.wf(),
        ensures
            match r {
                Some(c) => self@.cell(page_x, page_z, x as int, z as int) == Some(*c),
                None => self@.cell(page_x, page_z, x as int, z as int) is None,
            },
    {
        match self.find_page(page_x, page_z) {
            None => None,
            Some(i) => {
                proof {
                    self.lemma_view_page_at(i as int);
                }
                self.pages[i].1.get_cell(x, z)
            },
        }
    }
}

/// The rotation selected by the top two bits of a raw texture id's low
/// 16-bit field: `10` is 0 degrees, `01` is 90, `00` is 180, `11` is 270.
/// A two-bit field has exactly these four outcomes, so no fifth case
/// exists.
pub open spec fn spec_rotation(raw: u32) -> Rotation {
    if raw & 0xc000 == 0x8000 {
        Rotation::R0
    } else if raw & 0xc000 == 0x4000 {
        Rotation::R1
    } else if raw & 0xc000 == 0x0000 {
        Rotation::R2
    } else {
        Rotation::R3
    }
}

/// Rotation decoding reads nothing but the two rotation bits.
pub proof fn lemma_rotation_of_top_bits(a: u32, b: u32)
    requires
        a & 0xc000 == b & 0xc000,
    ensures
        spec_rotation(a) == spec_rotation(b),
{
}

/// Decodes the rotation bits of a raw texture id.
pub fn rotation_of(raw: u32) -> (r: Rotation)
    ensures
        r == spec_rotation(raw),
{
    let bits = raw & 0xc000;
    proof {
        assert(bits == 0x8000 || bits == 0x4000 || bits == 0x0000 || bits == 0xc000)
            by (bit_vector)
            requires
                bits == raw & 0xc000,
        ;
    }
    if bits == 0x8000 {
        Rotation::R0
    } else if bits == 0x4000 {
        Rotation::R1
    } else if bits == 0x0000 {
        Rotation::R2
    } else {
        Rotation::R3
    }
}

impl EntryView {
    /// Cells along one edge of the square a patch rasterizes.
    pub open spec fn diameter(self) -> int {
        2 * self.node_radius
    }

    /// True when the patch writes at least one cell: its anchor lies on the
    /// page and its radius is not zero.
    pub open spec fn touches(self) -> bool {
        self.node_radius > 0 && self.node_x < 128 && self.node_z < 128
    }

    /// True when the patch writes the cell at local `(x, z)`: inside the
    /// patch square and inside the page.
    pub open spec fn in_patch(self, x: int, z: int) -> bool {
        &&& self.node_x <= x < self.node_x + self.diameter()
        &&& self.node_z <= z < self.node_z + self.diameter()
        &&& x < 128
        &&& z < 128
    }

    /// The value a patch writes at local `(x, z)`: texture and height read
    /// at the row-major patch index, each falling back first to the
    /// sequence's head and then to zero, the rotation bits decoded and
    /// stripped.
    pub open spec fn cell_at(self, x: int, z: int) -> ElevCell
        recommends
            self.in_patch(x, z),
    {
        let idx = (z - self.node_z) * self.diameter() + (x - self.node_x);
        let raw = if 0 <= idx < self.texture_ids.len() {
            self.texture_ids[idx]
        } else if self.texture_ids.len() > 0 {
            self.texture_ids[0]
        } else {
            0u32
        };
        let h = if 0 <= idx < self.heights.len() {
            self.heights[idx]
        } else if self.heights.len() > 0 {
            self.heights[0]
        } else {
            0i32
        };
        ElevCell {
            texture_id: raw & 0xffff_3fff,
            rotation: spec_rotation(raw),
            height: h,
        }
    }
}

/// A patch with no texture values falls back to texture id 0, whose
/// rotation bits decode to 180 degrees; it never fails.
pub proof fn lemma_empty_texture_fallback(e: EntryView, x: int, z: int)
    requires
        e.texture_ids.len() == 0,
    ensures
        e.cell_at(x, z).texture_id == 0,
        e.cell_at(x, z).rotation == Rotation::R2,
{
    assert(0u32 & 0xffff_3fff == 0) by (bit_vector);
    assert(0u32 & 0xc000 == 0) by (bit_vector);
    assert(!(0u32 & 0xc000 == 0x8000) && !(0u32 & 0xc000 == 0x4000)) by (bit_vector);
}

/// What one cell write does to the map: the page is created at need (even
/// when the write itself falls outside the page and is dropped).
pub open spec fn spec_set_cell(m: MapView, px: i32, pz: i32, x: u8, z: u8, c: ElevCell) -> MapView {
    let k = (px, pz);
    let base = if m.pages.dom().contains(k) {
        m.pages[k]
    } else {
        default_page_seq()
    };
    let newp = if x < 128 && z < 128 {
        base.update(z as int * 128 + x as int, c)
    } else {
        base
    };
    MapView {
        order: if m.pages.dom().contains(k) {
            m.order
        } else {
            m.order.push(k)
        },
        pages: m.pages.insert(k, newp),
    }
}

/// What creating a page at need does to the map.
pub open spec fn spec_touch_page(m: MapView, px: i32, pz: i32) -> MapView {
    let k = (px, pz);
    if m.pages.dom().contains(k) {
        m
    } else {
        MapView { order: m.order.push(k), pages: m.pages.insert(k, default_page_seq()) }
    }
}

impl ElevMap {
    /// Overwrites the cell at local `(x, z)` of page `(page_x, page_z)`,
    /// creating the page the first time anything touches it.  Coordinates
    /// outside `[0, 128)` are silently dropped.
    pub fn set_cell(&mut self, page_x: i32, page_z: i32, x: u8, z: u8, cell: ElevCell)
        requires
            old(self).wf(),
        ensures
            final(self).wf(),
            final(self)@ == spec_set_cell(old(self)@, page_x, page_z, x, z, cell),
    {
        let ghost k = (page_x, page_z);
        let ghost vold = self@;
        match self.find_page(page_x, page_z) {
            Some(i) => {
                proof {
                    self.lemma_view_page_at(i as int);
                }
                self.pages[i].1.set_cell(x, z, cell);
                proof {
                    assert forall|m: int| 0 <= m < self.pages@.len() implies
                        (#[trigger] self.pages@[m]).0 == old(self).pages@[m].0 by {};
                    assert(self.wf());
                    let vnew = self@;
                    let vspec = spec_set_cell(vold, page_x, page_z, x, z, cell);
                    assert(vnew.order =~= vold.order);
                    assert forall|k2: (i32, i32)| #[trigger] vnew.pages.dom().contains(k2)
                        <==> vold.pages.dom().contains(k2) by {
                        if vnew.pages.dom().contains(k2) {
                            let j = choose|m: int|
                                0 <= m < self.pages@.len() && (#[trigger] self.pages@[m]).0 == k2;
                            assert(old(self).pages@[j].0 == k2);
                        }
                        if vold.pages.dom().contains(k2) {
                            let j = choose|m: int|
                                0 <= m < old(self).pages@.len()
                                    && (#[trigger] old(self).pages@[m]).0 == k2;
                            assert(self.pages@[j].0 == k2);
                        }
                    };
                    assert forall|k2: (i32, i32)| #[trigger] vnew.pages.dom().contains(k2) implies
                        vnew.pages[k2] == vspec.pages[k2] by {
                        let j = choose|m: int|
                            0 <= m < self.pages@.len() && (#[trigger] self.pages@[m]).0 == k2;
                        self.lemma_view_page_at(j);
                        old(self).lemma_view_page_at(j);
                        if k2 == k {
                            if j < i as int {
                                assert(old(self).pages@[j].0 != old(self).pages@[i as int].0);
                            }
                            if (i as int) < j {
                                assert(old(self).pages@[i as int].0 != old(self).pages@[j].0);
                            }
                        }
                    };
                    assert(vnew.pages =~= vspec.pages);
                    assert(vnew =~~= vspec);
                }
            },
            None => {
                let mut pg = ElevPage::new();
                pg.set_cell(x, z, cell);
                self.pages.push(((page_x, page_z), pg));
                proof {
                    let n = old(self).pages@.len() as int;
                    assert forall|m: int| 0 <= m < n implies
                        (#[trigger] old(self).pages@[m]).0 != k by {
                        if old(self).pages@[m].0 == k {
                            assert(vold.pages.dom().contains(k));
                        }
                    };
                    assert(self.wf());
                    let vnew = self@;
                    let vspec = spec_set_cell(vold, page_x, page_z, x, z, cell);
                    assert(vnew.order =~= vold.order.push(k));
                    assert forall|k2: (i32, i32)| #[trigger] vnew.pages.dom().contains(k2) implies
                        vnew.pages[k2] == vspec.pages[k2] by {
                        let j = choose|m: int|
                            0 <= m < self.pages@.len() && (#[trigger] self.pages@[m]).0 == k2;
                        self.lemma_view_page_at(j);
                        if k2 == k {
                            if j < n {
                                assert(old(self).pages@[j].0 == k);
                            }
                            assert(j == n);
                            assert(vnew.pages[k2] == pg@);
                        } else {
                            assert(j < n);
                            old(self).lemma_view_page_at(j);
                        }
                    };
                    assert forall|k2: (i32, i32)| #[trigger] vspec.pages.dom().contains(k2)
                        implies vnew.pages.dom().contains(k2) by {
                        if k2 == k {
                            assert(self.pages@[n].0 == k2);
                        } else {
                            let j = choose|m: int|
                                0 <= m < old(self).pages@.len()
                                    && (#[trigger] old(self).pages@[m]).0 == k2;
                            assert(self.pages@[j].0 == k2);
                        }
                    };
                    assert(vnew.pages =~= vspec.pages);
                    assert(vnew =~~= vspec);
                }
            },
        }
    }

    /// Creates the page at `(page_x, page_z)` if nothing has touched it yet.
    fn touch_page(&mut self, page_x: i32, page_z: i32)
        requires
            old(self).wf(),
        ensures
            final(self).wf(),
            final(self)@ == spec_touch_page(old(self)@, page_x, page_z),
    {
        let ghost k = (page_x, page_z);
        let ghost vold = self@;
        match self.find_page(page_x, page_z) {
            Some(i) => {
                proof {
                    self.lemma_view_page_at(i as int);
                }
            },
            None => {
                self.pages.push(((page_x, page_z), ElevPage::new()));
                proof {
                    let n = old(self).pages@.len() as int;
                    assert forall|m: int| 0 <= m < n implies
                        (#[trigger] old(self).pages@[m]).0 != k by {
                        if old(self).pages@[m].0 == k {
                            assert(vold.pages.dom().contains(k));
                        }
                    };
                    assert(self.wf());
                    let vnew = self@;
                    let vspec = spec_touch_page(vold, page_x, page_z);
                    assert(vnew.order =~= vold.order.push(k));
                    assert forall|k2: (i32, i32)| #[trigger] vnew.pages.dom().contains(k2) implies
                        vnew.pages[k2] == vspec.pages[k2] by {
                        let j = choose|m: int|
                            0 <= m < self.pages@.len() && (#[trigger] self.pages@[m]).0 == k2;
                        self.lemma_view_page_at(j);
                        if k2 == k {
                            if j < n {
                                assert(old(self).pages@[j].0 == k);
                            }
                            assert(j == n);
                        } else {
                            assert(j < n);
                            old(self).lemma_view_page_at(j);
                        }
                    };
                    assert forall|k2: (i32, i32)| #[trigger] vspec.pages.dom().contains(k2)
                        implies vnew.pages.dom().contains(k2) by {
                        if k2 == k {
                            assert(self.pages@[n].0 == k2);
                        } else {
                            let j = choose|m: int|
                                0 <= m < old(self).pages@.len()
                                    && (#[trigger] old(self).pages@[m]).0 == k2;
                            assert(self.pages@[j].0 == k2);
                        }
                    };
                    assert(vnew.pages =~= vspec.pages);
                    assert(vnew =~~= vspec);
                }
            },
        }
    }
}

/// What applying one patch does to the map: nothing when the patch touches
/// no cell; otherwise the target page is created at need and every cell the
/// patch covers is overwritten, the rest kept.
pub open spec fn spec_apply_entry(m: MapView, e: EntryView) -> MapView {
    if !e.touches() {
        m
    } else {
        let k = (e.page_x, e.page_z);
        let base = if m.pages.dom().contains(k) {
            m.pages[k]
        } else {
            default_page_seq()
        };
        let newp = Seq::new(
            CELLS_PER_PAGE as nat,
            |i: int|
                if e.in_patch(i % 128, i / 128) {
                    e.cell_at(i % 128, i / 128)
                } else {
                    base[i]
                },
        );
        MapView {
            order: if m.pages.dom().contains(k) {
                m.order
            } else {
                m.order.push(k)
            },
            pages: m.pages.insert(k, newp),
        }
    }
}

/// The page contents after the patch columns before `dxc`, and the cells of
/// column `dxc` before row `dzc`, have been written.
spec fn partial_page(base: Seq<ElevCell>, e: EntryView, dxc: int, dzc: int) -> Seq<ElevCell> {
    Seq::new(
        CELLS_PER_PAGE as nat,
        |i: int|
            {
                let x = i % 128;
                let z = i / 128;
                if e.in_patch(x, z) && (x - e.node_x < dxc || (x - e.node_x == dxc && z
                    - e.node_z < dzc)) {
                    e.cell_at(x, z)
                } else {
                    base[i]
                }
            },
    )
}

impl ElevMap {
    /// Rasterizes one patch into its page: every covered cell inside
    /// `[0, 128)` on both axes is overwritten with the patch's texture,
    /// rotation and height for that position; the overflowing ring of an
    /// oversized patch is discarded, never wrapped into a neighboring page.
    #[verifier::loop_isolation(false)]
    pub fn apply_entry(&mut self, entry: &ElevEntry)
        requires
            old(self).wf(),
        ensures
            final(self).wf(),
            final(self)@ == spec_apply_entry(old(self)@, entry@),
    {
        let diameter: u16 = (entry.node_radius as u16) * 2;
        if diameter == 0 || entry.node_x >= 128 || entry.node_z >= 128 {
            return ;
        }
        let ghost e = entry@;
        let ghost m0 = self@;
        let ghost k = (entry.page_x, entry.page_z);
        let ghost base = if m0.pages.dom().contains(k) {
            m0.pages[k]
        } else {
            default_page_seq()
        };
        proof {
            old(self).lemma_view_wf();
        }
        self.touch_page(entry.page_x, entry.page_z);
        proof {
            assert(self@.pages.dom() =~= m0.pages.dom().insert(k));
            assert(self@.pages[k] =~= partial_page(base, e, 0, 0));
        }
        let mut dx: u16 = 0;
        while dx < diameter
            invariant
                self.wf(),
                dx <= diameter,
                self@.order == spec_apply_entry(m0, e).order,
                self@.pages.dom() == m0.pages.dom().insert(k),
                forall|k2: (i32, i32)| k2 != k && #[trigger] self@.pages.dom().contains(k2)
                    ==> self@.pages[k2] == m0.pages[k2],
                self@.pages[k] == partial_page(base, e, dx as int, 0),
            decreases diameter - dx,
        {
            let mut dz: u16 = 0;
            while dz < diameter
                invariant
                    self.wf(),
                    dz <= diameter,
                    self@.order == spec_apply_entry(m0, e).order,
                    self@.pages.dom() == m0.pages.dom().insert(k),
                    forall|k2: (i32, i32)| k2 != k && #[trigger] self@.pages.dom().contains(k2)
                        ==> self@.pages[k2] == m0.pages[k2],
                    self@.pages[k] == partial_page(base, e, dx as int, dz as int),
                decreases diameter - dz,
            {
                let x: u16 = entry.node_x as u16 + dx;
                let z: u16 = entry.node_z as u16 + dz;
                if x < 128 && z < 128 {
                    proof {
                        assert((dz as int) * (diameter as int) <= 127 * 510) by (nonlinear_arith)
                            requires
                                0 <= dz as int <= 127,
                                0 <= diameter as int <= 510,
                        ;
                    }
                    let index: usize = (dz as usize) * (diameter as usize) + (dx as usize);
                    let raw: u32 = if index < entry.texture_ids.len() {
                        entry.texture_ids[index]
                    } else if entry.texture_ids.len() > 0 {
                        entry.texture_ids[0]
                    } else {
                        0
                    };
                    let rotation = rotation_of(raw);
                    let texture_id = raw & 0xffff_3fff;
                    let height: i32 = if index < entry.heights.len() {
                        entry.heights[index]
                    } else if entry.heights.len() > 0 {
                        entry.heights[0]
                    } else {
                        0
                    };
                    let cell = ElevCell { texture_id, rotation, height };
                    proof {
                        assert(e.in_patch(x as int, z as int));
                        assert(cell == e.cell_at(x as int, z as int));
                    }
                    let ghost before = self@;
                    self.set_cell(entry.page_x, entry.page_z, x as u8, z as u8, cell);
                    proof {
                        let j = z as int * 128 + x as int;
                        assert(self@.pages[k] == before.pages[k].update(j, cell));
                        assert forall|i: int| 0 <= i < CELLS_PER_PAGE implies
                            self@.pages[k][i] == partial_page(
                            base,
                            e,
                            dx as int,
                            dz as int + 1,
                        )[i] by {
                            vstd::arithmetic::div_mod::lemma_fundamental_div_mod(i, 128);
                            if i == j {
                                vstd::arithmetic::div_mod::lemma_fundamental_div_mod_converse(
                                    j,
                                    128,
                                    z as int,
                                    x as int,
                                );
                            }
                        };
                        assert(self@.pages[k] =~= partial_page(base, e, dx as int, dz as int + 1));
                        assert(self@.pages.dom() =~= m0.pages.dom().insert(k));
                    }
                } else {
                    proof {
                        assert forall|i: int| 0 <= i < CELLS_PER_PAGE implies
                            partial_page(base, e, dx as int, dz as int)[i] == partial_page(
                            base,
                            e,
                            dx as int,
                            dz as int + 1,
                        )[i] by {
                            vstd::arithmetic::div_mod::lemma_fundamental_div_mod(i, 128);
                        };
                        assert(partial_page(base, e, dx as int, dz as int) =~= partial_page(
                            base,
                            e,
                            dx as int,
                            dz as int + 1,
                        ));
                    }
                }
                dz += 1;
            }
            proof {
                assert forall|i: int| 0 <= i < CELLS_PER_PAGE implies
                    partial_page(base, e, dx as int, diameter as int)[i] == partial_page(
                    base,
                    e,
                    dx as int + 1,
                    0,
                )[i] by {
                    vstd::arithmetic::div_mod::lemma_fundamental_div_mod(i, 128);
                };
                assert(partial_page(base, e, dx as int, diameter as int) =~= partial_page(
                    base,
                    e,
                    dx as int + 1,
                    0,
                ));
            }
            dx += 1;
        }
        proof {
            let target = spec_apply_entry(m0, e);
            let newp = Seq::new(
                CELLS_PER_PAGE as nat,
                |i: int|
                    if e.in_patch(i % 128, i / 128) {
                        e.cell_at(i % 128, i / 128)
                    } else {
                        base[i]
                    },
            );
            assert forall|i: int| 0 <= i < CELLS_PER_PAGE implies
                partial_page(base, e, diameter as int, 0)[i] == newp[i] by {
                vstd::arithmetic::div_mod::lemma_fundamental_div_mod(i, 128);
            };
            assert(partial_page(base, e, diameter as int, 0) =~= newp);
            assert(self@.pages =~= target.pages);
            assert(self@ =~~= target);
        }
    }
}

/// What applying a whole dump's patches, in file order, does to a map.
pub open spec fn spec_apply_entries(m: MapView, es: Seq<EntryView>) -> MapView
    decreases es.len(),
{
    if es.len() == 0 {
        m
    } else {
        spec_apply_entry(spec_apply_entries(m, es.drop_last()), es.last())
    }
}

impl ElevMap {
    /// Builds a map by applying every patch of a dump in file order, so
    /// that later patches overwrite earlier ones at shared cells.
    #[verifier::loop_isolation(false)]
    pub fn from_dump(dump: &ElevDump) -> (r: ElevMap)
        ensures
            r.wf(),
            r@ == spec_apply_entries(MapView::empty(), dump@),
    {
        let mut map = ElevMap::new();
        let mut i: usize = 0;
        while i < dump.entries.len()
            invariant
                map.wf(),
                i <= dump.entries.len(),
                map@ == spec_apply_entries(MapView::empty(), dump@.take(i as int)),
            decreases dump.entries.len() - i,
        {
            map.apply_entry(&dump.entries[i]);
            proof {
                assert(dump@.take(i as int + 1).drop_last() =~= dump@.take(i as int));
                assert(dump@.take(i as int + 1).last() == dump@[i as int]);
            }
            i += 1;
        }
        proof {
            assert(dump@.take(dump@.len() as int) =~= dump@);
        }
        map
    }
}

impl<'a> From<&'a ElevDump> for ElevMap {
    /// Call-site parity with plain construction; what the result holds is
    /// stated on [`ElevMap::from_dump`], which this forwards to.
    fn from(dump: &'a ElevDump) -> (r: Self) {
        ElevMap::from_dump(dump)
    }
}

impl<'a> vstd::std_specs::convert::FromSpecImpl<&'a ElevDump> for ElevMap {
    open spec fn obeys_from_spec() -> bool {
        false
    }

    open spec fn from_spec(v: &'a ElevDump) -> ElevMap {
        vstd::pervasive::arbitrary()
    }
}

/// The cells a patch writes, as local page positions.
pub open spec fn footprint(e: EntryView) -> Set<(int, int)> {
    Set::new(|p: (int, int)| e.in_patch(p.0, p.1))
}

/// A patch writes at most `(2r)^2` cells, however large the page and
/// whatever the clipping: its footprint injects into a `(2r)^2` index range.
pub proof fn lemma_patch_footprint(e: EntryView)
    ensures
        footprint(e).finite(),
        footprint(e).len() <= e.diameter() * e.diameter(),
{
    let d = e.diameter();
    if d == 0 {
        assert(footprint(e) =~= Set::<(int, int)>::empty());
    } else {
        assert(d * d >= 0) by (nonlinear_arith)
            requires
                d >= 0,
        ;
        let base = vstd::set_lib::set_int_range(0, d * d);
        vstd::set_lib::lemma_int_range(0, d * d);
        let g = |kk: int| (e.node_x + kk % d, e.node_z + kk / d);
        let img = base.map(g);
        vstd::set_lib::lemma_map_size_bound(base, img, g);
        assert forall|p: (int, int)| footprint(e).contains(p) implies img.contains(p) by {
            let a = p.0 - e.node_x;
            let b = p.1 - e.node_z;
            let kk = b * d + a;
            assert(0 <= kk < d * d) by (nonlinear_arith)
                requires
                    0 <= a < d,
                    0 <= b < d,
                    kk == b * d + a,
            ;
            vstd::arithmetic::div_mod::lemma_fundamental_div_mod_converse(kk, d, b, a);
            assert(base.contains(kk) && p == g(kk));
        };
        vstd::set_lib::lemma_len_subset(footprint(e), img);
    }
}

/// Outside its footprint, a patch changes no cell value: a cell on another
/// page, or on the patch's page but outside the written square of an
/// already-populated page, reads as before.
pub proof fn lemma_apply_changes_only_footprint(
    m: MapView,
    e: EntryView,
    px: i32,
    pz: i32,
    x: int,
    z: int,
)
    ensures
        (px, pz) != (e.page_x, e.page_z) ==> spec_apply_entry(m, e).cell(px, pz, x, z)
            == m.cell(px, pz, x, z),
        (px, pz) == (e.page_x, e.page_z) && !e.in_patch(x, z) && m.has_page(px, pz)
            ==> spec_apply_entry(m, e).cell(px, pz, x, z) == m.cell(px, pz, x, z),
{
    if e.touches() && (px, pz) == (e.page_x, e.page_z) && !e.in_patch(x, z) && m.has_page(
        px,
        pz,
    ) && 0 <= x < 128 && 0 <= z < 128 {
        let i = z * 128 + x;
        vstd::arithmetic::div_mod::lemma_fundamental_div_mod_converse(i, 128, z, x);
    }
}

/// Later patches strictly overwrite earlier ones: after applying `a` then
/// `b` to the same page, a cell `b` covers reads `b`'s value, and a cell
/// only `a` covers still reads `a`'s value.
pub proof fn lemma_later_patch_overwrites(
    m: MapView,
    a: EntryView,
    b: EntryView,
    x: int,
    z: int,
)
    requires
        a.page_x == b.page_x,
        a.page_z == b.page_z,
    ensures
        b.in_patch(x, z) ==> spec_apply_entry(spec_apply_entry(m, a), b).cell(
            b.page_x,
            b.page_z,
            x,
            z,
        ) == Some(b.cell_at(x, z)),
        a.in_patch(x, z) && !b.in_patch(x, z) ==> spec_apply_entry(
            spec_apply_entry(m, a),
            b,
        ).cell(a.page_x, a.page_z, x, z) == Some(a.cell_at(x, z)),
{
    let m1 = spec_apply_entry(m, a);
    let m2 = spec_apply_entry(m1, b);
    if b.in_patch(x, z) {
        let i = z * 128 + x;
        vstd::arithmetic::div_mod::lemma_fundamental_div_mod_converse(i, 128, z, x);
        assert(b.touches());
        assert(m2.cell(b.page_x, b.page_z, x, z) == Some(b.cell_at(x, z)));
    }
    if a.in_patch(x, z) && !b.in_patch(x, z) {
        let i = z * 128 + x;
        vstd::arithmetic::div_mod::lemma_fundamental_div_mod_converse(i, 128, z, x);
        assert(a.touches());
        assert(m1.cell(a.page_x, a.page_z, x, z) == Some(a.cell_at(x, z)));
        assert(m2.cell(a.page_x, a.page_z, x, z) == Some(a.cell_at(x, z)));
    }
}

/// What a bounding-box result says of a page coordinate list: the sentinel
/// on an empty list, and tight inclusive bounds otherwise.
pub open spec fn bounds_of(order: Seq<(i32, i32)>, r: (i32, i32, i32, i32)) -> bool {
    &&& order.len() == 0 ==> r == (i32::MAX, i32::MAX, i32::MIN, i32::MIN)
    &&& forall|i: int| 0 <= i < order.len()
        ==> r.0 <= (#[trigger] order[i]).0 <= r.2 && r.1 <= order[i].1 <= r.3
    &&& order.len() > 0 ==> (exists|i: int|
        0 <= i < order.len() && (#[trigger] order[i]).0 == r.0) && (exists|i: int|
        0 <= i < order.len() && (#[trigger] order[i]).1 == r.1) && (exists|i: int|
        0 <= i < order.len() && (#[trigger] order[i]).0 == r.2) && (exists|i: int|
        0 <= i < order.len() && (#[trigger] order[i]).1 == r.3)
}

/// The bounding box over a page coordinate list, folded in list order:
/// the sentinel for no pages, else componentwise minima and maxima.
pub open spec fn spec_bounds(order: Seq<(i32, i32)>) -> (i32, i32, i32, i32)
    decreases order.len(),
{
    if order.len() == 0 {
        (i32::MAX, i32::MAX, i32::MIN, i32::MIN)
    } else {
        let r = spec_bounds(order.drop_last());
        let k = order.last();
        (
            if k.0 < r.0 {
                k.0
            } else {
                r.0
            },
            if k.1 < r.1 {
                k.1
            } else {
                r.1
            },
            if k.0 > r.2 {
                k.0
            } else {
                r.2
            },
            if k.1 > r.3 {
                k.1
            } else {
                r.3
            },
        )
    }
}

/// The bounds of an empty map are a sentinel that no populated map can
/// produce: its minima lie above its maxima.
pub proof fn lemma_bounds_sentinel(order: Seq<(i32, i32)>, r: (i32, i32, i32, i32))
    requires
        bounds_of(order, r),
    ensures
        order.len() == 0 ==> r.0 > r.2 && r.1 > r.3,
        order.len() > 0 ==> r.0 <= r.2 && r.1 <= r.3,
{
    if order.len() > 0 {
        let i = choose|i: int| 0 <= i < order.len() && (#[trigger] order[i]).0 == r.2;
        assert(r.0 <= order[i].0);
        let j = choose|j: int| 0 <= j < order.len() && (#[trigger] order[j]).1 == r.3;
        assert(r.1 <= order[j].1);
    }
}

impl ElevMap {
    /// The inclusive bounding box `(min_x, min_z, max_x, max_z)` over all
    /// populated page coordinates; `(i32::MAX, i32::MAX, i32::MIN,
    /// i32::MIN)` when no page is populated.
    #[verifier::loop_isolation(false)]
    pub fn get_bounds(&self) -> (r: (i32, i32, i32, i32))
        ensures
            r == spec_bounds(self@.order),
            bounds_of(self@.order, r),
    {
        let mut min_x = i32::MAX;
        let mut min_z = i32::MAX;
        let mut max_x = i32::MIN;
        let mut max_z = i32::MIN;
        let mut i: usize = 0;
        while i < self.pages.len()
            invariant
                i <= self.pages@.len(),
                (min_x, min_z, max_x, max_z) == spec_bounds(self@.order.take(i as int)),
                forall|m: int| 0 <= m < i
                    ==> min_x <= (#[trigger] self@.order[m]).0 <= max_x && min_z
                        <= self@.order[m].1 <= max_z,
                i > 0 ==> (exists|m: int| 0 <= m < i && (#[trigger] self@.order[m]).0 == min_x)
                    && (exists|m: int| 0 <= m < i && (#[trigger] self@.order[m]).1 == min_z)
                    && (exists|m: int| 0 <= m < i && (#[trigger] self@.order[m]).0 == max_x)
                    && (exists|m: int| 0 <= m < i && (#[trigger] self@.order[m]).1 == max_z),
            decreases self.pages@.len() - i,
        {
            let kk = self.pages[i].0;
            proof {
                assert(self@.order[i as int] == kk);
                assert(self@.order.take(i as int + 1).drop_last() =~= self@.order.take(i as int));
                assert(self@.order.take(i as int + 1).last() == kk);
            }
            if kk.0 < min_x {
                min_x = kk.0;
            }
            if kk.1 < min_z {
                min_z = kk.1;
            }
            if kk.0 > max_x {
                max_x = kk.0;
            }
            if kk.1 > max_z {
                max_z = kk.1;
            }
            i += 1;
        }
        proof {
            assert(self@.order.take(self@.order.len() as int) =~= self@.order);
        }
        (min_x, min_z, max_x, max_z)
    }
}

} // verus!
