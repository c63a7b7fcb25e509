//! The grid of nodes: its layout (border, fixed regions, dynamic nodes), its
//! construction, and the sweeps of the relaxation.

use vstd::arithmetic::div_mod::lemma_fundamental_div_mod;
use vstd::arithmetic::div_mod::lemma_fundamental_div_mod_converse;
use crate::sectors::{bounds_spec, max_sections, not_beneficial, sector_count};
use vstd::prelude::*;

verus! {

/// A rectangle of cells in the grid's own coordinates: `width` columns from
/// column `col` and `height` rows from row `row`.
#[derive(Clone, Copy, Debug, PartialEq, Eq, Structural)]
pub struct Rect {
    pub col: usize,
    pub row: usize,
    pub width: usize,
    pub height: usize,
}

/// Whether node `i` of a row-major buffer `w` nodes wide lies in `r`.
pub open spec fn in_rect(i: int, w: int, r: Rect) -> bool {
    &&& r.row <= i / w < r.row + r.height
    &&& r.col <= i % w < r.col + r.width
}

/// Whether node `i` of a `w` by `h` grid lies in its outermost rows or columns.
pub open spec fn on_border(i: int, w: int, h: int) -> bool {
    i / w == 0 || i / w == h - 1 || i % w == 0 || i % w == w - 1
}

/// The buffer `s` with every node in `r` set to `v`.
pub open spec fn stamped<T>(s: Seq<T>, w: int, r: Rect, v: T) -> Seq<T> {
    Seq::new(s.len(), |i: int| if in_rect(i, w, r) { v } else { s[i] })
}

/// Row and column of `row * w + col`.
proof fn lemma_cell(i: int, w: int, row: int, col: int)
    requires
        w >= 1,
        0 <= col < w,
        i == row * w + col,
    ensures
        i / w == row,
        i % w == col,
{
    lemma_fundamental_div_mod_converse(i, w, row, col);
}

/// A node off the border has its four neighbours inside the buffer, the left
/// and right ones in its own row.
proof fn lemma_interior(i: int, w: int, h: int)
    requires
        w >= 1,
        h >= 1,
        0 <= i < w * h,
        !on_border(i, w, h),
    ensures
        w <= i,
        i + w < w * h,
        1 <= i % w,
        i % w + 1 < w,
{
    lemma_fundamental_div_mod(i, w);
    let row = i / w;
    let col = i % w;
    assert(0 <= col < w);
    assert(row >= 0) by (nonlinear_arith)
        requires
            w >= 1,
            i >= 0,
            i == w * row + col,
            col < w,
    ;
    assert(row < h) by (nonlinear_arith)
        requires
            w >= 1,
            i < w * h,
            i == w * row + col,
            col >= 0,
    ;
    assert(w <= i) by (nonlinear_arith)
        requires
            row >= 1,
            i == w * row + col,
            col >= 0,
            w >= 1,
    ;
    assert(i + w < w * h) by (nonlinear_arith)
        requires
            row <= h - 2,
            i == w * row + col,
            col < w,
            w >= 1,
    ;
}

/// Sets every node of `buf` (a row-major buffer `width` nodes wide) that lies
/// in `rect` to `value`.
pub fn stamp<T: Copy>(buf: &mut Vec<T>, width: usize, rect: Rect, value: T)
    requires
        width >= 1,
    ensures
        final(buf)@ == stamped(old(buf)@, width as int, rect, value),
{
    let ghost b0 = buf@;
    let n = buf.len();
    let mut i: usize = 0;
    let mut row: usize = 0;
    let mut col: usize = 0;
    while i < n
        invariant
            width >= 1,
            n == buf@.len(),
            n == b0.len(),
            i <= n,
            col < width,
            row <= i,
            i == row * width + col,
            forall|j: int| 0 <= j < i ==> buf@[j] == stamped(b0, width as int, rect, value)[j],
            forall|j: int| i <= j < n ==> buf@[j] == b0[j],
        decreases n - i,
    {
        proof {
            lemma_cell(i as int, width as int, row as int, col as int);
        }
        if rect.row <= row && row - rect.row < rect.height && rect.col <= col && col - rect.col
            < rect.width {
            buf.set(i, value);
        }
        i = i + 1;
        if col + 1 == width {
            assert((row + 1) * width == row * width + width) by (nonlinear_arith);
            assert(row + 1 <= i) by (nonlinear_arith)
                requires
                    i == row * width + col + 1,
                    width >= 1,
                    col + 1 == width,
            ;
            col = 0;
            row = row + 1;
        } else {
            col = col + 1;
        }
    }
    assert(buf@ =~= stamped(b0, width as int, rect, value));
}

/// A mask of a `width` by `height` grid that is true on its border.
fn border_mask(width: usize, height: usize) -> (mask: Vec<bool>)
    requires
        width >= 1,
        height >= 1,
        width * height <= usize::MAX,
    ensures
        mask@.len() == width * height,
        forall|i: int|
            0 <= i < width * height ==> mask@[i] == on_border(i, width as int, height as int),
{
    let n = width * height;
    let mut mask: Vec<bool> = Vec::new();
    let mut i: usize = 0;
    let mut row: usize = 0;
    let mut col: usize = 0;
    while i < n
        invariant
            width >= 1,
            n == width * height,
            i <= n,
            col < width,
            row <= i,
            i == row * width + col,
            mask@.len() == i,
            forall|j: int|
                0 <= j < i ==> mask@[j] == on_border(j, width as int, height as int),
        decreases n - i,
    {
        proof {
            lemma_cell(i as int, width as int, row as int, col as int);
        }
        mask.push(row == 0 || row + 1 == height || col == 0 || col + 1 == width);
        i = i + 1;
        if col + 1 == width {
            assert((row + 1) * width == row * width + width) by (nonlinear_arith);
            assert(row + 1 <= i) by (nonlinear_arith)
                requires
                    i == row * width + col + 1,
                    width >= 1,
                    col + 1 == width,
            ;
            col = 0;
            row = row + 1;
        } else {
            col = col + 1;
        }
    }
    mask
}

/// Stamping a region a second time changes nothing.
pub proof fn lemma_stamp_idempotent<T>(s: Seq<T>, w: int, r: Rect, v: T)
    ensures
        stamped(stamped(s, w, r, v), w, r, v) == stamped(s, w, r, v),
{
    assert(stamped(stamped(s, w, r, v), w, r, v) =~= stamped(s, w, r, v));
}

/// The coordinate system in which regions and watch points are given:
/// `nodes_per_unit` nodes per unit, the offsets that move the origin into the
/// grid, and whether an axis runs backwards.
#[derive(Clone, Copy, Debug, PartialEq, Eq, Structural)]
pub struct Scale {
    pub nodes_per_unit: usize,
    pub x_offset: isize,
    pub y_offset: isize,
    pub invert_x: bool,
    pub invert_y: bool,
}

/// A rectangular region of fixed value: top-left corner `(x, y)` and size in
/// the units of a `Scale`.
#[derive(Debug)]
pub struct FixedBox<V> {
    pub x: isize,
    pub y: isize,
    pub width: usize,
    pub height: usize,
    pub potential: V,
}

/// Why a grid could not be built or a solve could not start.
#[derive(Clone, Copy, Debug, PartialEq, Eq, Structural)]
pub enum GridError {
    /// A fixed region reaches the border of the grid or beyond.
    OutOfBounds,
    /// The watched point lies outside the node buffer.
    InvalidWatchPosition,
}

/// The grid cell, along one axis, of coordinate `v`.
pub open spec fn axis_cell(v: isize, offset: isize, invert: bool, npu: usize) -> int {
    (if invert {
        offset - v
    } else {
        v + offset
    }) * npu
}

/// Cell of coordinate `v` along one axis, where it is a cell index at all.
fn convert_axis(v: isize, offset: isize, invert: bool, npu: usize) -> (r: Option<usize>)
    ensures
        r matches Some(c) ==> c == axis_cell(v, offset, invert, npu),
        r is None ==> axis_cell(v, offset, invert, npu) < 0 || axis_cell(v, offset, invert, npu)
            > usize::MAX,
{
    let a: i128 = if invert {
        offset as i128 - v as i128
    } else {
        v as i128 + offset as i128
    };
    if a < 0 {
        assert(axis_cell(v, offset, invert, npu) <= 0) by (nonlinear_arith)
            requires
                a < 0,
                axis_cell(v, offset, invert, npu) == a * npu,
        ;
        if npu == 0 {
            assert(axis_cell(v, offset, invert, npu) == a * 0);
            assert(a * 0 == 0) by (nonlinear_arith);
            return Some(0);
        }
        assert(a * npu < 0) by (nonlinear_arith)
            requires
                a < 0,
                npu >= 1,
        ;
        return None;
    }
    let c: usize = a as usize;
    c.checked_mul(npu)
}

/// Column and row of the point `(x, y)` in the grid's own coordinates, where
/// both are cell indices.
pub fn convert_coordinates(x: isize, y: isize, scale: &Scale) -> (r: Option<(usize, usize)>)
    ensures
        r matches Some(cr) ==> cr.0 == axis_cell(x, scale.x_offset, scale.invert_x, scale.nodes_per_unit)
            && cr.1 == axis_cell(y, scale.y_offset, scale.invert_y, scale.nodes_per_unit),
        r is None ==> !(0 <= axis_cell(x, scale.x_offset, scale.invert_x, scale.nodes_per_unit)
            <= usize::MAX && 0 <= axis_cell(y, scale.y_offset, scale.invert_y, scale.nodes_per_unit)
            <= usize::MAX),
{
    match convert_axis(x, scale.x_offset, scale.invert_x, scale.nodes_per_unit) {
        Some(c) => match convert_axis(y, scale.y_offset, scale.invert_y, scale.nodes_per_unit) {
            Some(r) => Some((c, r)),
            None => None,
        },
        None => None,
    }
}

/// Column, row, width and height of a region in the grid's own coordinates.
pub open spec fn box_cells<V>(b: FixedBox<V>, s: Scale) -> (int, int, int, int) {
    (
        axis_cell(b.x, s.x_offset, s.invert_x, s.nodes_per_unit),
        axis_cell(b.y, s.y_offset, s.invert_y, s.nodes_per_unit),
        b.width * s.nodes_per_unit,
        b.height * s.nodes_per_unit,
    )
}

/// Whether a region lies strictly inside a `w` by `h` grid, clear of its border.
pub open spec fn box_fits<V>(b: FixedBox<V>, s: Scale, w: int, h: int) -> bool {
    let (c, r, bw, bh) = box_cells(b, s);
    &&& 1 <= c
    &&& 1 <= r
    &&& c + bw <= w - 1
    &&& r + bh <= h - 1
}

/// A region whose right edge reaches the grid's last column, or lies beyond
/// it, does not fit; so `Grid::new` fails on it with `OutOfBounds`.
pub proof fn lemma_right_edge_out_of_bounds<V>(b: FixedBox<V>, s: Scale, w: int, h: int)
    requires
        box_cells(b, s).0 + box_cells(b, s).2 >= w,
    ensures
        !box_fits(b, s, w, h),
{
}

/// The cells of a region that fits.
pub open spec fn box_rect<V>(b: FixedBox<V>, s: Scale) -> Rect {
    let (c, r, bw, bh) = box_cells(b, s);
    Rect { col: c as usize, row: r as usize, width: bw as usize, height: bh as usize }
}

/// The cells of region `b`, where it lies strictly inside a `w` by `h` grid.
fn fitted_rect<V: Copy>(b: &FixedBox<V>, s: &Scale, w: usize, h: usize) -> (r: Option<Rect>)
    ensures
        r is Some <==> box_fits(*b, *s, w as int, h as int),
        r matches Some(rect) ==> rect == box_rect(*b, *s),
{
    let (c, row) = match convert_coordinates(b.x, b.y, s) {
        Some(cr) => cr,
        None => {
            return None;
        },
    };
    let bw = match b.width.checked_mul(s.nodes_per_unit) {
        Some(v) => v,
        None => {
            return None;
        },
    };
    let bh = match b.height.checked_mul(s.nodes_per_unit) {
        Some(v) => v,
        None => {
            return None;
        },
    };
    if 1 <= c && 1 <= row && c < w && bw <= w - 1 - c && row < h && bh <= h - 1 - row {
        Some(Rect { col: c, row, width: bw, height: bh })
    } else {
        None
    }
}

/// Node values on `base` after stamping each region of `boxes` in turn.
pub open spec fn painted<V>(base: Seq<V>, w: int, boxes: Seq<FixedBox<V>>, s: Scale) -> Seq<V>
    decreases boxes.len(),
{
    if boxes.len() == 0 {
        base
    } else {
        stamped(
            painted(base, w, boxes.drop_last(), s),
            w,
            box_rect(boxes.last(), s),
            boxes.last().potential,
        )
    }
}

/// Whether node `i` is on the border or in one of the regions.
pub open spec fn fixed_spec<V>(i: int, w: int, h: int, boxes: Seq<FixedBox<V>>, s: Scale) -> bool {
    on_border(i, w, h) || exists|k: int|
        0 <= k < boxes.len() && in_rect(i, w, #[trigger] box_rect(boxes[k], s))
}

/// A relaxation step on one node: its new value from its value and its four
/// neighbours, and whether the change stayed within the accepted tolerance.
///
/// The step depends on its five arguments alone; `step` names it, so that the
/// sweeps below can say exactly which values they produce. Implementations
/// hold the arithmetic (floating point) that the library itself does not.
pub trait Stencil<V> {
    spec fn step(&self, centre: V, top: V, left: V, right: V, bottom: V) -> (V, bool);

    fn relax(&self, centre: V, top: V, left: V, right: V, bottom: V) -> (r: (V, bool))
        ensures
            r == self.step(centre, top, left, right, bottom),
    ;
}

/// The values `s` (rows `w` wide) after relaxing the positions
/// `d[start] .. d[end - 1]` once each, in that order, every step reading the
/// values of the steps before it; and whether every step stayed within the
/// tolerance.
pub open spec fn relax_positions<V, S: Stencil<V>>(
    st: &S,
    s: Seq<V>,
    w: int,
    d: Seq<usize>,
    start: int,
    end: int,
) -> (Seq<V>, bool)
    decreases end - start,
{
    if end <= start {
        (s, true)
    } else {
        let (prev, ok) = relax_positions(st, s, w, d, start, end - 1);
        let i = d[end - 1] as int;
        let (v, f) = st.step(prev[i], prev[i - w], prev[i - 1], prev[i + 1], prev[i + w]);
        (prev.update(i, v), ok && f)
    }
}

/// One sweep of `s` over all the dynamic positions `d`.
pub open spec fn sweep_spec<V, S: Stencil<V>>(st: &S, s: Seq<V>, w: int, d: Seq<usize>) -> (
    Seq<V>,
    bool,
) {
    relax_positions(st, s, w, d, 0, d.len() as int)
}

/// The values `s` after `k` sweeps.
pub open spec fn sweeps<V, S: Stencil<V>>(st: &S, s: Seq<V>, w: int, d: Seq<usize>, k: nat) -> Seq<
    V,
>
    decreases k,
{
    if k == 0 {
        s
    } else {
        sweep_spec(st, sweeps(st, s, w, d, (k - 1) as nat), w, d).0
    }
}

/// Whether sweep number `k` (counting from 1) stayed within the tolerance at
/// every node.
pub open spec fn sweep_settled<V, S: Stencil<V>>(
    st: &S,
    s: Seq<V>,
    w: int,
    d: Seq<usize>,
    k: nat,
) -> bool {
    sweep_spec(st, sweeps(st, s, w, d, (k - 1) as nat), w, d).1
}

/// The number of sweeps to the first settled sweep is unique, so two
/// converging runs from equal values take the same number of sweeps and, by
/// `Grid::evaluate`'s contract, end with equal values.
pub proof fn lemma_first_settled_unique<V, S: Stencil<V>>(
    st: &S,
    s: Seq<V>,
    w: int,
    d: Seq<usize>,
    a: nat,
    b: nat,
)
    requires
        a >= 1,
        b >= 1,
        sweep_settled(st, s, w, d, a),
        sweep_settled(st, s, w, d, b),
        forall|k: nat| 1 <= k < a ==> !#[trigger] sweep_settled(st, s, w, d, k),
        forall|k: nat| 1 <= k < b ==> !#[trigger] sweep_settled(st, s, w, d, k),
    ensures
        a == b,
{
}

/// Sweeps compose: `a` sweeps and then `b` more are `a + b` sweeps.
pub proof fn lemma_sweeps_compose<V, S: Stencil<V>>(
    st: &S,
    s: Seq<V>,
    w: int,
    d: Seq<usize>,
    a: nat,
    b: nat,
)
    ensures
        sweeps(st, sweeps(st, s, w, d, a), w, d, b) == sweeps(st, s, w, d, a + b),
    decreases b,
{
    if b > 0 {
        lemma_sweeps_compose(st, s, w, d, a, (b - 1) as nat);
        assert((a + b - 1) as nat == (a + (b - 1)) as nat);
    }
}

/// A copy of the nodes that the relaxation of one sector reads: the grid's
/// nodes from `offset` on, with the sector's dynamic positions `start .. end`
/// given relative to `offset`. A worker relaxes it on its own; the grid then
/// takes back the sector's positions alone.
pub struct SectorWindow<V> {
    start: usize,
    end: usize,
    offset: usize,
    width: usize,
    values: Vec<V>,
    positions: Vec<usize>,
}

impl<V: Copy> SectorWindow<V> {
    pub closed spec fn start_view(&self) -> int {
        self.start as int
    }

    pub closed spec fn end_view(&self) -> int {
        self.end as int
    }

    pub closed spec fn offset_view(&self) -> int {
        self.offset as int
    }

    pub closed spec fn width_view(&self) -> int {
        self.width as int
    }

    /// The copied node values.
    pub closed spec fn values_view(&self) -> Seq<V> {
        self.values@
    }

    /// The sector's dynamic positions, relative to `offset`.
    pub closed spec fn positions_view(&self) -> Seq<usize> {
        self.positions@
    }

    /// Each position has its four neighbours inside the copy.
    pub closed spec fn wf(&self) -> bool {
        &&& self.width >= 1
        &&& self.start <= self.end
        &&& self.positions@.len() == self.end - self.start
        &&& forall|k: int|
            0 <= k < self.positions@.len() ==> self.width <= #[trigger] self.positions@[k]
                && self.positions@[k] + self.width < self.values@.len()
    }

    /// Same sector, offset and positions, and as many values.
    pub open spec fn same_frame(&self, other: &Self) -> bool {
        &&& self.start_view() == other.start_view()
        &&& self.end_view() == other.end_view()
        &&& self.offset_view() == other.offset_view()
        &&& self.width_view() == other.width_view()
        &&& self.positions_view() == other.positions_view()
        &&& self.values_view().len() == other.values_view().len()
    }

    /// The first dynamic position of the sector.
    pub fn start(&self) -> (r: usize)
        ensures
            r == self.start_view(),
    {
        self.start
    }

    /// The end of the sector's dynamic positions.
    pub fn end(&self) -> (r: usize)
        ensures
            r == self.end_view(),
    {
        self.end
    }

    /// Relaxes the sector's positions once, in ascending order, each step
    /// seeing the values of the steps before it; the same steps as
    /// `Grid::relax_range` on the grid itself. Returns whether every step
    /// stayed within the tolerance. No other value changes.
    pub fn relax<S: Stencil<V>>(&mut self, stencil: &S) -> (settled: bool)
        requires
            old(self).wf(),
        ensures
            final(self).wf(),
            final(self).same_frame(old(self)),
            (final(self).values_view(), settled) == relax_positions(
                stencil,
                old(self).values_view(),
                old(self).width_view(),
                old(self).positions_view(),
                0,
                old(self).positions_view().len() as int,
            ),
            forall|i: int|
                0 <= i < old(self).values_view().len() && !old(self).positions_view().contains(
                    i as usize,
                ) ==> final(self).values_view()[i] == old(self).values_view()[i],
    {
        let ghost w0 = *self;
        let mut settled = true;
        let mut k: usize = 0;
        let len = self.positions.len();
        while k < len
            invariant
                w0.wf(),
                self.wf(),
                self.same_frame(&w0),
                len == w0.positions_view().len(),
                k <= len,
                (self.values_view(), settled) == relax_positions(
                    stencil,
                    w0.values_view(),
                    w0.width_view(),
                    w0.positions_view(),
                    0,
                    k as int,
                ),
                forall|i: int|
                    0 <= i < w0.values_view().len() && !w0.positions_view().subrange(
                        0,
                        k as int,
                    ).contains(i as usize) ==> self.values_view()[i] == w0.values_view()[i],
            decreases len - k,
        {
            let i = self.positions[k];
            let w = self.width;
            let n = self.values.len();
            assert(w <= self.positions@[k as int] && self.positions@[k as int] + w < n);
            let (v, ok) = stencil.relax(
                self.values[i],
                self.values[i - w],
                self.values[i - 1],
                self.values[i + 1],
                self.values[i + w],
            );
            let ghost before = *self;
            self.values.set(i, v);
            assert(self.positions@ == before.positions@);
            assert(self.values@.len() == before.values@.len());
            assert(self.wf());
            settled = settled && ok;
            assert forall|j: int|
                0 <= j < w0.values_view().len() && !w0.positions_view().subrange(
                    0,
                    k + 1,
                ).contains(j as usize) implies self.values_view()[j] == w0.values_view()[j] by {
                if j == i {
                    assert(w0.positions_view().subrange(0, k + 1)[k as int] == i);
                }
                if w0.positions_view().subrange(0, k as int).contains(j as usize) {
                    let m = choose|m: int|
                        0 <= m < k && w0.positions_view().subrange(0, k as int)[m] == j as usize;
                    assert(w0.positions_view().subrange(0, k + 1)[m] == j as usize);
                }
            }
            k = k + 1;
        }
        assert(w0.positions_view().subrange(0, len as int) =~= w0.positions_view());
        settled
    }
}

/// The nodes of a grid, row by row, with the layout that says which of them
/// are fixed and which change.
pub struct Grid<V> {
    nodes: Vec<V>,
    width: usize,
    scale: Scale,
    height: usize,
    fixed: Vec<bool>,
    dynamic_nodes_indices: Vec<usize>,
}

impl<V: Copy> Grid<V> {
    /// The node values, row by row.
    pub closed spec fn nodes_view(&self) -> Seq<V> {
        self.nodes@
    }

    pub closed spec fn width_view(&self) -> int {
        self.width as int
    }

    pub closed spec fn scale_view(&self) -> Scale {
        self.scale
    }

    pub closed spec fn height_view(&self) -> int {
        self.height as int
    }

    /// Which nodes are fixed.
    pub closed spec fn fixed_view(&self) -> Seq<bool> {
        self.fixed@
    }

    /// The positions of the nodes that change, in ascending order.
    pub closed spec fn dynamic_view(&self) -> Seq<usize> {
        self.dynamic_nodes_indices@
    }

    /// Same dimensions, scale and layout.
    pub open spec fn same_layout(&self, other: &Self) -> bool {
        &&& self.width_view() == other.width_view()
        &&& self.scale_view() == other.scale_view()
        &&& self.height_view() == other.height_view()
        &&& self.fixed_view() == other.fixed_view()
        &&& self.dynamic_view() == other.dynamic_view()
        &&& self.nodes_view().len() == other.nodes_view().len()
    }

    /// The buffer holds `width * height` nodes; the border is fixed; the
    /// dynamic positions, ascending, are exactly the nodes that are not fixed.
    pub closed spec fn wf(&self) -> bool {
        let n = self.nodes@.len() as int;
        let w = self.width as int;
        let h = self.height as int;
        let d = self.dynamic_nodes_indices@;
        &&& w >= 1
        &&& h >= 1
        &&& n == w * h
        &&& self.fixed@.len() == n
        &&& forall|i: int| 0 <= i < n && on_border(i, w, h) ==> #[trigger] self.fixed@[i]
        &&& forall|a: int, b: int| 0 <= a < b < d.len() ==> d[a] < d[b]
        &&& forall|k: int|
            0 <= k < d.len() ==> {
                &&& #[trigger] d[k] < n
                &&& !self.fixed@[d[k] as int]
                &&& w <= d[k]
                &&& d[k] + w < n
            }
        &&& forall|i: int|
            0 <= i < n && !#[trigger] self.fixed@[i] ==> exists|k: int|
                0 <= k < d.len() && d[k] == i
    }

    /// A grid of `width` by `height` units at the scale's resolution: border
    /// fixed at `zero`, each region stamped with its value in turn, every other
    /// node `zero` and dynamic. Fails with `OutOfBounds` exactly when a region
    /// does not lie strictly inside the grid.
    pub fn new(
        width: usize,
        height: usize,
        fixed_elements: &Vec<FixedBox<V>>,
        scale: &Scale,
        zero: V,
    ) -> (r: Result<Grid<V>, GridError>)
        requires
            width * scale.nodes_per_unit >= 1,
            height * scale.nodes_per_unit >= 1,
            width * scale.nodes_per_unit * (height * scale.nodes_per_unit) <= usize::MAX,
        ensures
            ({
                let w = width * scale.nodes_per_unit;
                let h = height * scale.nodes_per_unit;
                &&& r is Err <==> exists|k: int|
                    0 <= k < fixed_elements@.len() && !box_fits(
                        #[trigger] fixed_elements@[k],
                        *scale,
                        w,
                        h,
                    )
                &&& r is Err ==> r == Err::<Grid<V>, GridError>(GridError::OutOfBounds)
                &&& r matches Ok(g) ==> {
                    &&& g.wf()
                    &&& g.width_view() == w
                    &&& g.height_view() == h
                    &&& g.scale_view() == *scale
                    &&& g.nodes_view() == painted(
                        Seq::new((w * h) as nat, |i: int| zero),
                        w,
                        fixed_elements@,
                        *scale,
                    )
                    &&& forall|i: int|
                        0 <= i < w * h ==> (#[trigger] g.fixed_view()[i] <==> fixed_spec(
                            i,
                            w,
                            h,
                            fixed_elements@,
                            *scale,
                        ))
                }
            }),
    {
        let npu = scale.nodes_per_unit;
        assert(width * npu <= usize::MAX && height * npu <= usize::MAX) by (nonlinear_arith)
            requires
                width * npu >= 1,
                height * npu >= 1,
                width * npu * (height * npu) <= usize::MAX,
        ;
        let w: usize = width * npu;
        let h: usize = height * npu;
        let n: usize = w * h;
        let ghost boxes = fixed_elements@;
        let ghost base = Seq::new(n as nat, |i: int| zero);
        let mut nodes: Vec<V> = Vec::new();
        let mut i: usize = 0;
        while i < n
            invariant
                i <= n,
                nodes@ == Seq::new(i as nat, |j: int| zero),
            decreases n - i,
        {
            nodes.push(zero);
            i = i + 1;
            assert(nodes@ =~= Seq::new(i as nat, |j: int| zero));
        }
        let mut fixed = border_mask(w, h);
        let mut k: usize = 0;
        while k < fixed_elements.len()
            invariant
                w >= 1,
                w == width * scale.nodes_per_unit,
                h == height * scale.nodes_per_unit,
                n == w * h,
                k <= boxes.len(),
                boxes == fixed_elements@,
                nodes@ == painted(base, w as int, boxes.subrange(0, k as int), *scale),
                nodes@.len() == n,
                fixed@.len() == n,
                forall|j: int| 0 <= j < k ==> box_fits(#[trigger] boxes[j], *scale, w as int, h as int),
                forall|i: int|
                    0 <= i < n ==> (#[trigger] fixed@[i] <==> fixed_spec(
                        i,
                        w as int,
                        h as int,
                        boxes.subrange(0, k as int),
                        *scale,
                    )),
            decreases boxes.len() - k,
        {
            let b = &fixed_elements[k];
            let rect = match fitted_rect(b, scale, w, h) {
                Some(rect) => rect,
                None => {
                    assert(*b == fixed_elements@[k as int]);
                    assert(!box_fits(fixed_elements@[k as int], *scale, w as int, h as int));
                    return Err(GridError::OutOfBounds);
                },
            };
            let ghost f0 = fixed@;
            stamp(&mut nodes, w, rect, b.potential);
            stamp(&mut fixed, w, rect, true);
            let ghost pre = boxes.subrange(0, k as int);
            let ghost post = boxes.subrange(0, k + 1);
            assert(post.drop_last() =~= pre);
            assert(post.last() == boxes[k as int]);
            assert forall|i: int|
                0 <= i < n implies (#[trigger] fixed@[i] <==> fixed_spec(
                i,
                w as int,
                h as int,
                post,
                *scale,
            )) by {
                if in_rect(i, w as int, rect) {
                    assert(post[k as int] == boxes[k as int]);
                    assert(in_rect(i, w as int, box_rect(post[k as int], *scale)));
                } else {
                    assert(fixed@[i] == f0[i]);
                    if exists|j: int|
                        0 <= j < post.len() && in_rect(i, w as int, #[trigger] box_rect(post[j], *scale))
                    {
                        let j = choose|j: int|
                            0 <= j < post.len() && in_rect(i, w as int, #[trigger] box_rect(post[j], *scale));
                        assert(j != k);
                        assert(pre[j] == post[j]);
                    }
                    if exists|j: int|
                        0 <= j < pre.len() && in_rect(i, w as int, #[trigger] box_rect(pre[j], *scale))
                    {
                        let j = choose|j: int|
                            0 <= j < pre.len() && in_rect(i, w as int, #[trigger] box_rect(pre[j], *scale));
                        assert(pre[j] == post[j]);
                    }
                }
            }
            k = k + 1;
        }
        assert(boxes.subrange(0, boxes.len() as int) =~= boxes);
        let mut dynamic_nodes_indices: Vec<usize> = Vec::new();
        let mut i: usize = 0;
        while i < n
            invariant
                w >= 1,
                h >= 1,
                n == w * h,
                i <= n,
                fixed@.len() == n,
                nodes@.len() == n,
                forall|j: int| 0 <= j < n && on_border(j, w as int, h as int) ==> #[trigger] fixed@[j],
                forall|a: int, b: int|
                    0 <= a < b < dynamic_nodes_indices@.len() ==> dynamic_nodes_indices@[a]
                        < dynamic_nodes_indices@[b],
                forall|k: int|
                    0 <= k < dynamic_nodes_indices@.len() ==> {
                        &&& #[trigger] dynamic_nodes_indices@[k] < i
                        &&& !fixed@[dynamic_nodes_indices@[k] as int]
                        &&& w <= dynamic_nodes_indices@[k]
                        &&& dynamic_nodes_indices@[k] + w < n
                    },
                forall|j: int|
                    0 <= j < i && !#[trigger] fixed@[j] ==> exists|k: int|
                        0 <= k < dynamic_nodes_indices@.len() && dynamic_nodes_indices@[k] == j,
            decreases n - i,
        {
            if !fixed[i] {
                proof {
                    lemma_interior(i as int, w as int, h as int);
                }
                let ghost d0 = dynamic_nodes_indices@;
                dynamic_nodes_indices.push(i);
                assert forall|j: int|
                    0 <= j <= i && !#[trigger] fixed@[j] implies exists|k: int|
                    0 <= k < dynamic_nodes_indices@.len() && dynamic_nodes_indices@[k] == j by {
                    if j < i {
                        let k = choose|k: int| 0 <= k < d0.len() && d0[k] == j;
                        assert(dynamic_nodes_indices@[k] == j);
                    } else {
                        assert(dynamic_nodes_indices@[d0.len() as int] == j);
                    }
                }
            }
            i = i + 1;
        }
        Ok(Grid { nodes, width: w, scale: *scale, height: h, fixed, dynamic_nodes_indices })
    }

    /// Whether node `i` is one of the dynamic positions `start .. end`.
    pub open spec fn touched(&self, start: int, end: int, i: int) -> bool {
        exists|k: int| start <= k < end && self.dynamic_view()[k] == i
    }

    /// The row-major buffer index of watch point `p`, where it lies inside the
    /// buffer.
    pub open spec fn watch_spec(&self, p: (isize, isize)) -> Option<int> {
        let s = self.scale_view();
        let c = axis_cell(p.0, s.x_offset, s.invert_x, s.nodes_per_unit);
        let r = axis_cell(p.1, s.y_offset, s.invert_y, s.nodes_per_unit);
        if 0 <= c && 0 <= r && r * self.width_view() + c < self.nodes_view().len() {
            Some(r * self.width_view() + c)
        } else {
            None
        }
    }

    /// Relaxes the dynamic positions `start .. end` once, in ascending order,
    /// each step seeing the values of the steps before it. Returns whether
    /// every step stayed within the tolerance. No other node changes.
    pub fn relax_range<S: Stencil<V>>(&mut self, start: usize, end: usize, stencil: &S) -> (settled:
        bool)
        requires
            old(self).wf(),
            start <= end <= old(self).dynamic_view().len(),
        ensures
            final(self).wf(),
            final(self).same_layout(old(self)),
            (final(self).nodes_view(), settled) == relax_positions(
                stencil,
                old(self).nodes_view(),
                old(self).width_view(),
                old(self).dynamic_view(),
                start as int,
                end as int,
            ),
            forall|i: int|
                0 <= i < old(self).nodes_view().len() && !old(self).touched(
                    start as int,
                    end as int,
                    i,
                ) ==> final(self).nodes_view()[i] == old(self).nodes_view()[i],
    {
        let ghost g0 = *self;
        let mut settled = true;
        let mut k: usize = start;
        while k < end
            invariant
                g0.wf(),
                self.wf(),
                self.same_layout(&g0),
                start <= k <= end,
                end <= g0.dynamic_view().len(),
                (self.nodes_view(), settled) == relax_positions(
                    stencil,
                    g0.nodes_view(),
                    g0.width_view(),
                    g0.dynamic_view(),
                    start as int,
                    k as int,
                ),
                forall|i: int|
                    0 <= i < g0.nodes_view().len() && !g0.touched(start as int, k as int, i)
                        ==> self.nodes_view()[i] == g0.nodes_view()[i],
            decreases end - k,
        {
            let i = self.dynamic_nodes_indices[k];
            let w = self.width;
            let n = self.nodes.len();
            assert(i < n && w <= i && i + w < n);
            let (v, ok) = stencil.relax(
                self.nodes[i],
                self.nodes[i - w],
                self.nodes[i - 1],
                self.nodes[i + 1],
                self.nodes[i + w],
            );
            let ghost before = *self;
            self.nodes.set(i, v);
            assert(self.nodes@.len() == before.nodes@.len());
            assert(self.fixed@ == before.fixed@);
            assert(self.dynamic_nodes_indices@ == before.dynamic_nodes_indices@);
            assert(self.wf());
            settled = settled && ok;
            assert forall|j: int|
                0 <= j < g0.nodes_view().len() && !g0.touched(
                    start as int,
                    k + 1,
                    j,
                ) implies self.nodes_view()[j] == g0.nodes_view()[j] by {
                if j == i {
                    assert(g0.dynamic_view()[k as int] == j);
                }
                if g0.touched(start as int, k as int, j) {
                    let m = choose|m: int| start <= m < k && g0.dynamic_view()[m] == j;
                    assert(start <= m < k + 1 && g0.dynamic_view()[m] == j);
                }
            }
            k = k + 1;
        }
        settled
    }

    /// A fixed node is never one of the dynamic positions.
    proof fn lemma_fixed_untouched(&self, start: int, end: int, i: int)
        requires
            self.wf(),
            0 <= start,
            end <= self.dynamic_view().len(),
            0 <= i < self.nodes_view().len(),
            self.fixed_view()[i],
        ensures
            !self.touched(start, end, i),
    {
        if self.touched(start, end, i) {
            let k = choose|k: int| start <= k < end && self.dynamic_view()[k] == i;
            assert(self.dynamic_nodes_indices@[k] < self.nodes@.len());
        }
    }

    /// One sweep: relaxes every dynamic position once, in ascending order,
    /// each step reading the values of the steps before it. Returns whether
    /// every step stayed within the tolerance. Fixed nodes keep their values.
    pub fn sweep<S: Stencil<V>>(&mut self, stencil: &S) -> (settled: bool)
        requires
            old(self).wf(),
        ensures
            final(self).wf(),
            final(self).same_layout(old(self)),
            (final(self).nodes_view(), settled) == sweep_spec(
                stencil,
                old(self).nodes_view(),
                old(self).width_view(),
                old(self).dynamic_view(),
            ),
            forall|i: int|
                0 <= i < old(self).nodes_view().len() && old(self).fixed_view()[i]
                    ==> final(self).nodes_view()[i] == old(self).nodes_view()[i],
    {
        let ghost g0 = *self;
        let len = self.dynamic_nodes_indices.len();
        let settled = self.relax_range(0, len, stencil);
        assert forall|i: int|
            0 <= i < g0.nodes_view().len() && g0.fixed_view()[i] implies self.nodes_view()[i]
            == g0.nodes_view()[i] by {
            g0.lemma_fixed_untouched(0, len as int, i);
        }
        settled
    }

    /// The buffer index of watch point `watch`, or `None` where it lies
    /// outside the buffer.
    pub fn watch_index(&self, watch: (isize, isize)) -> (r: Option<usize>)
        requires
            self.wf(),
        ensures
            r is Some <==> self.watch_spec(watch) is Some,
            r matches Some(i) ==> i == self.watch_spec(watch)->Some_0 && i < self.nodes_view().len(),
    {
        let n = self.nodes.len();
        match convert_coordinates(watch.0, watch.1, &self.scale) {
            Some((c, r)) => {
                assert(self.width >= 1);
                match r.checked_mul(self.width) {
                    Some(rw) => match rw.checked_add(c) {
                        Some(i) => {
                            if i < n {
                                Some(i)
                            } else {
                                None
                            }
                        },
                        None => None,
                    },
                    None => None,
                }
            },
            None => {
                proof {
                    let s = self.scale;
                    let c = axis_cell(watch.0, s.x_offset, s.invert_x, s.nodes_per_unit);
                    let r = axis_cell(watch.1, s.y_offset, s.invert_y, s.nodes_per_unit);
                    if 0 <= c && 0 <= r {
                        assert(r * self.width >= r) by (nonlinear_arith)
                            requires
                                r >= 0,
                                self.width >= 1,
                        ;
                    }
                }
                None
            },
        }
    }

    /// Watch buffer index for an optional watch point; `Err` where the point
    /// lies outside the buffer.
    fn checked_watch(&self, watch: Option<(isize, isize)>) -> (r: Result<Option<usize>, GridError>)
        requires
            self.wf(),
        ensures
            r is Err <==> (watch matches Some(p) && self.watch_spec(p) is None),
            r is Err ==> r == Err::<Option<usize>, GridError>(GridError::InvalidWatchPosition),
            r matches Ok(o) ==> (o is None <==> watch is None),
            r matches Ok(Some(i)) ==> watch matches Some(p) && i == self.watch_spec(p)->Some_0
                && i < self.nodes_view().len(),
    {
        match watch {
            Some(p) => match self.watch_index(p) {
                Some(i) => Ok(Some(i)),
                None => Err(GridError::InvalidWatchPosition),
            },
            None => Ok(None),
        }
    }

    /// The values after `k` sweeps from the current nodes.
    pub open spec fn after(&self, st: &impl Stencil<V>, k: nat) -> Seq<V> {
        sweeps(st, self.nodes_view(), self.width_view(), self.dynamic_view(), k)
    }

    /// The watch series of `k` sweeps at buffer index `w`: the value before the
    /// first sweep and after each one.
    pub open spec fn watch_series(&self, st: &impl Stencil<V>, w: int, k: nat) -> Seq<V> {
        Seq::new(k + 1, |j: int| self.after(st, j as nat)[w])
    }

    /// Sweeps until a sweep stays within the tolerance at every node (or the
    /// sweep counter reaches its largest value), and returns the number of
    /// sweeps. With a watch point, appends its value before the first sweep and
    /// after each sweep. Fails with `InvalidWatchPosition`, changing nothing,
    /// exactly when the watch point lies outside the buffer.
    pub fn evaluate<S: Stencil<V>>(
        &mut self,
        stencil: &S,
        watch: Option<(isize, isize)>,
        watch_data: &mut Vec<V>,
    ) -> (r: Result<usize, GridError>)
        requires
            old(self).wf(),
        ensures
            final(self).wf(),
            final(self).same_layout(old(self)),
            r is Err <==> (watch matches Some(p) && old(self).watch_spec(p) is None),
            r is Err ==> r == Err::<usize, GridError>(GridError::InvalidWatchPosition) && *final(self)
                == *old(self) && final(watch_data)@ == old(watch_data)@,
            r matches Ok(count) ==> {
                let d = old(self).dynamic_view();
                let w = old(self).width_view();
                &&& count >= 1
                &&& final(self).nodes_view() == old(self).after(stencil, count as nat)
                &&& sweep_settled(stencil, old(self).nodes_view(), w, d, count as nat) || count
                    == usize::MAX
                &&& forall|k: nat|
                    1 <= k < count ==> !#[trigger] sweep_settled(
                        stencil,
                        old(self).nodes_view(),
                        w,
                        d,
                        k,
                    )
                &&& watch is None ==> final(watch_data)@ == old(watch_data)@
                &&& watch matches Some(p) ==> final(watch_data)@ == old(watch_data)@
                    + old(self).watch_series(stencil, old(self).watch_spec(p)->Some_0, count as nat)
            },
    {
        let wi = match self.checked_watch(watch) {
            Ok(o) => o,
            Err(e) => {
                return Err(e);
            },
        };
        let ghost g0 = *self;
        let ghost d0 = watch_data@;
        let ghost s0 = g0.nodes_view();
        let ghost w = g0.width_view();
        let ghost d = g0.dynamic_view();
        if let Some(i) = wi {
            watch_data.push(self.nodes[i]);
            assert(watch_data@ =~= d0 + g0.watch_series(stencil, i as int, 0));
        }
        let mut count: usize = 0;
        let mut settled = false;
        while !settled && count < usize::MAX
            invariant
                g0.wf(),
                self.wf(),
                self.same_layout(&g0),
                count == 0 ==> !settled,
                count > 0 ==> settled == sweep_settled(stencil, s0, w, d, count as nat),
                s0 == g0.nodes_view(),
                w == g0.width_view(),
                d == g0.dynamic_view(),
                self.nodes_view() == sweeps(stencil, s0, w, d, count as nat),
                forall|k: nat| 1 <= k < count ==> !#[trigger] sweep_settled(stencil, s0, w, d, k),
                wi is None ==> watch_data@ == d0,
                wi matches Some(i) ==> i < g0.nodes_view().len() && watch_data@ == d0
                    + g0.watch_series(stencil, i as int, count as nat),
            decreases usize::MAX - count,
        {
            settled = self.sweep(stencil);
            count = count + 1;
            assert(self.nodes_view() == sweeps(stencil, s0, w, d, count as nat));
            if let Some(i) = wi {
                watch_data.push(self.nodes[i]);
                assert(watch_data@ =~= d0 + g0.watch_series(stencil, i as int, count as nat));
            }
        }
        Ok(count)
    }

    /// Sweeps exactly `iterations` times. With a watch point, appends its value
    /// before the first sweep and after each sweep, then `marker`: `iterations + 2`
    /// values in all. Fails with `InvalidWatchPosition`, changing nothing,
    /// exactly when the watch point lies outside the buffer.
    pub fn evaluate_for<S: Stencil<V>>(
        &mut self,
        stencil: &S,
        watch: Option<(isize, isize)>,
        watch_data: &mut Vec<V>,
        iterations: usize,
        marker: V,
    ) -> (r: Result<(), GridError>)
        requires
            old(self).wf(),
        ensures
            final(self).wf(),
            final(self).same_layout(old(self)),
            r is Err <==> (watch matches Some(p) && old(self).watch_spec(p) is None),
            r is Err ==> r == Err::<(), GridError>(GridError::InvalidWatchPosition) && *final(self)
                == *old(self) && final(watch_data)@ == old(watch_data)@,
            r is Ok ==> {
                &&& final(self).nodes_view() == old(self).after(stencil, iterations as nat)
                &&& watch is None ==> final(watch_data)@ == old(watch_data)@
                &&& watch matches Some(p) ==> final(watch_data)@ == old(watch_data)@
                    + old(self).watch_series(
                    stencil,
                    old(self).watch_spec(p)->Some_0,
                    iterations as nat,
                ).push(marker)
            },
    {
        let wi = match self.checked_watch(watch) {
            Ok(o) => o,
            Err(e) => {
                return Err(e);
            },
        };
        let ghost g0 = *self;
        let ghost d0 = watch_data@;
        let ghost s0 = g0.nodes_view();
        let ghost w = g0.width_view();
        let ghost d = g0.dynamic_view();
        if let Some(i) = wi {
            watch_data.push(self.nodes[i]);
            assert(watch_data@ =~= d0 + g0.watch_series(stencil, i as int, 0));
        }
        let mut count: usize = 0;
        while count < iterations
            invariant
                g0.wf(),
                self.wf(),
                self.same_layout(&g0),
                count <= iterations,
                s0 == g0.nodes_view(),
                w == g0.width_view(),
                d == g0.dynamic_view(),
                self.nodes_view() == sweeps(stencil, s0, w, d, count as nat),
                wi is None ==> watch_data@ == d0,
                wi matches Some(i) ==> i < g0.nodes_view().len() && watch_data@ == d0
                    + g0.watch_series(stencil, i as int, count as nat),
            decreases iterations - count,
        {
            self.sweep(stencil);
            count = count + 1;
            assert(self.nodes_view() == sweeps(stencil, s0, w, d, count as nat));
            if let Some(i) = wi {
                watch_data.push(self.nodes[i]);
                assert(watch_data@ =~= d0 + g0.watch_series(stencil, i as int, count as nat));
            }
        }
        if let Some(i) = wi {
            watch_data.push(marker);
            assert(watch_data@ =~= d0 + g0.watch_series(stencil, i as int, iterations as nat).push(
                marker,
            ));
        }
        Ok(())
    }

    /// Gives the `k`-th dynamic position the value `noise[k]`; fixed nodes keep
    /// their values.
    pub fn fill_dynamic(&mut self, noise: &Vec<V>)
        requires
            old(self).wf(),
            noise@.len() == old(self).dynamic_view().len(),
        ensures
            final(self).wf(),
            final(self).same_layout(old(self)),
            forall|k: int|
                0 <= k < noise@.len() ==> final(self).nodes_view()[#[trigger] old(self).dynamic_view()[k] as int]
                    == noise@[k],
            forall|i: int|
                0 <= i < old(self).nodes_view().len() && old(self).fixed_view()[i]
                    ==> final(self).nodes_view()[i] == old(self).nodes_view()[i],
    {
        let ghost g0 = *self;
        let len = self.dynamic_nodes_indices.len();
        let mut k: usize = 0;
        while k < len
            invariant
                g0.wf(),
                self.wf(),
                self.same_layout(&g0),
                len == g0.dynamic_view().len(),
                noise@.len() == len,
                k <= len,
                forall|m: int|
                    0 <= m < k ==> self.nodes_view()[#[trigger] g0.dynamic_view()[m] as int]
                        == noise@[m],
                forall|i: int|
                    0 <= i < g0.nodes_view().len() && !g0.touched(0, k as int, i)
                        ==> self.nodes_view()[i] == g0.nodes_view()[i],
            decreases len - k,
        {
            let i = self.dynamic_nodes_indices[k];
            assert(i < self.nodes@.len());
            let ghost before = *self;
            self.nodes.set(i, noise[k]);
            assert(self.nodes@.len() == before.nodes@.len());
            assert(self.fixed@ == before.fixed@);
            assert(self.dynamic_nodes_indices@ == before.dynamic_nodes_indices@);
            assert(self.wf());
            assert forall|m: int|
                0 <= m < k + 1 implies self.nodes_view()[#[trigger] g0.dynamic_view()[m] as int]
                == noise@[m] by {
                if m < k {
                    assert(self.dynamic_nodes_indices@[m] < self.dynamic_nodes_indices@[k as int]);
                }
            }
            assert forall|j: int|
                0 <= j < g0.nodes_view().len() && !g0.touched(0, k + 1, j) implies self.nodes_view()[j]
                == g0.nodes_view()[j] by {
                if j == i {
                    assert(g0.dynamic_view()[k as int] == j);
                }
                if g0.touched(0, k as int, j) {
                    let m = choose|m: int| 0 <= m < k && g0.dynamic_view()[m] == j;
                    assert(0 <= m < k + 1 && g0.dynamic_view()[m] == j);
                }
            }
            k = k + 1;
        }
        assert forall|i: int|
            0 <= i < g0.nodes_view().len() && g0.fixed_view()[i] implies self.nodes_view()[i]
            == g0.nodes_view()[i] by {
            g0.lemma_fixed_untouched(0, len as int, i);
        }
    }

    /// The node values, row by row.
    pub fn nodes(&self) -> (r: &Vec<V>)
        ensures
            r@ == self.nodes_view(),
    {
        &self.nodes
    }

    /// Nodes per row.
    pub fn width(&self) -> (r: usize)
        ensures
            r == self.width_view(),
    {
        self.width
    }

    /// Number of rows.
    pub fn height(&self) -> (r: usize)
        ensures
            r == self.height_view(),
    {
        self.height
    }

    /// The coordinate system of regions and watch points.
    pub fn scale(&self) -> (r: Scale)
        ensures
            r == self.scale_view(),
    {
        self.scale
    }

    /// The positions of the nodes that change, ascending.
    pub fn dynamic_indices(&self) -> (r: &Vec<usize>)
        ensures
            r@ == self.dynamic_view(),
    {
        &self.dynamic_nodes_indices
    }

    /// Every dynamic position lies off the border and so has its four
    /// neighbours inside the buffer, the left and right ones in its own row;
    /// the dynamic positions, ascending and without repeats, and the fixed
    /// nodes split the buffer: each node is in exactly one of the two.
    pub proof fn lemma_dynamic_partition(&self)
        requires
            self.wf(),
        ensures
            ({
                let n = self.nodes_view().len() as int;
                let w = self.width_view();
                let h = self.height_view();
                let d = self.dynamic_view();
                &&& n == w * h
                &&& forall|k: int|
                    0 <= k < d.len() ==> {
                        &&& !on_border(#[trigger] d[k] as int, w, h)
                        &&& w <= d[k]
                        &&& d[k] + w < n
                        &&& 1 <= (d[k] as int) % w
                        &&& (d[k] as int) % w + 1 < w
                    }
                &&& forall|a: int, b: int| 0 <= a < b < d.len() ==> d[a] < d[b]
                &&& forall|i: int|
                    0 <= i < n ==> (self.touched(0, d.len() as int, i) <==> !(
                    #[trigger] self.fixed_view()[i]))
            }),
    {
        let n = self.nodes_view().len() as int;
        let w = self.width_view();
        let h = self.height_view();
        let d = self.dynamic_view();
        assert forall|k: int| 0 <= k < d.len() implies {
            &&& !on_border(#[trigger] d[k] as int, w, h)
            &&& w <= d[k]
            &&& d[k] + w < n
            &&& 1 <= (d[k] as int) % w
            &&& (d[k] as int) % w + 1 < w
        } by {
            assert(d[k] < n);
            lemma_interior(d[k] as int, w, h);
        }
        assert forall|i: int|
            0 <= i < n implies (self.touched(0, d.len() as int, i) <==> !(
            #[trigger] self.fixed_view()[i])) by {
            if self.fixed_view()[i] {
                self.lemma_fixed_untouched(0, d.len() as int, i);
            } else {
                let k = choose|k: int| 0 <= k < d.len() && d[k] == i;
                assert(0 <= k < d.len() && d[k] == i);
            }
        }
    }

    /// A copy of the nodes that relaxing the dynamic positions `start .. end`
    /// reads: from one row above the first to one row below the last.
    pub fn window(&self, start: usize, end: usize) -> (win: SectorWindow<V>)
        requires
            self.wf(),
            start <= end <= self.dynamic_view().len(),
        ensures
            win.wf(),
            win.start_view() == start,
            win.end_view() == end,
            win.width_view() == self.width_view(),
            forall|k: int|
                0 <= k < end - start ==> #[trigger] win.positions_view()[k] + win.offset_view()
                    == self.dynamic_view()[start + k],
            forall|i: int|
                0 <= i < win.values_view().len() ==> win.offset_view() + i < self.nodes_view().len()
                    && #[trigger] win.values_view()[i] == self.nodes_view()[win.offset_view() + i],
    {
        let w = self.width;
        if start == end {
            return SectorWindow {
                start,
                end,
                offset: 0,
                width: w,
                values: Vec::new(),
                positions: Vec::new(),
            };
        }
        let d = &self.dynamic_nodes_indices;
        let n = self.nodes.len();
        assert(d@[start as int] < n && w <= d@[start as int]);
        assert(d@[end - 1] < self.nodes@.len() && d@[end - 1] + w < self.nodes@.len());
        let lo = d[start] - w;
        let hi = d[end - 1] + w + 1;
        let mut values: Vec<V> = Vec::new();
        let mut i: usize = lo;
        while i < hi
            invariant
                lo <= i <= hi,
                hi <= self.nodes@.len(),
                values@.len() == i - lo,
                forall|j: int| 0 <= j < i - lo ==> values@[j] == self.nodes@[lo + j],
            decreases hi - i,
        {
            values.push(self.nodes[i]);
            i = i + 1;
        }
        let mut positions: Vec<usize> = Vec::new();
        let mut k: usize = start;
        while k < end
            invariant
                self.wf(),
                start < end <= self.dynamic_nodes_indices@.len(),
                start <= k <= end,
                lo == self.dynamic_nodes_indices@[start as int] - w,
                hi == self.dynamic_nodes_indices@[end - 1] + w + 1,
                w == self.width,
                values@.len() == hi - lo,
                positions@.len() == k - start,
                forall|j: int|
                    0 <= j < k - start ==> #[trigger] positions@[j] + lo
                        == self.dynamic_nodes_indices@[start + j] && w <= positions@[j]
                        && positions@[j] + w < values@.len(),
            decreases end - k,
        {
            let p = self.dynamic_nodes_indices[k];
            assert(self.dynamic_nodes_indices@[start as int] <= p) by {
                if start < k {
                    assert(self.dynamic_nodes_indices@[start as int]
                        < self.dynamic_nodes_indices@[k as int]);
                }
            }
            assert(p <= self.dynamic_nodes_indices@[end - 1]) by {
                if k < end - 1 {
                    assert(self.dynamic_nodes_indices@[k as int]
                        < self.dynamic_nodes_indices@[end - 1]);
                }
            }
            positions.push(p - lo);
            k = k + 1;
        }
        SectorWindow { start, end, offset: lo, width: w, values, positions }
    }

    /// Takes back from `win` the values of the dynamic positions
    /// `win.start() .. win.end()`, where the window covers them; returns
    /// whether it did. No other node changes, and nothing at all where it
    /// returns `false`.
    pub fn write_back(&mut self, win: &SectorWindow<V>) -> (r: bool)
        requires
            old(self).wf(),
            win.wf(),
        ensures
            final(self).wf(),
            final(self).same_layout(old(self)),
            r == (win.end_view() <= old(self).dynamic_view().len() && (win.start_view()
                < win.end_view() ==> win.offset_view() <= old(self).dynamic_view()[win.start_view()]
                && old(self).dynamic_view()[win.end_view() - 1] - win.offset_view()
                < win.values_view().len())),
            !r ==> final(self).nodes_view() == old(self).nodes_view(),
            r ==> forall|k: int|
                win.start_view() <= k < win.end_view() ==> final(self).nodes_view()[
                #[trigger] old(self).dynamic_view()[k] as int] == win.values_view()[old(
                self,
                ).dynamic_view()[k] - win.offset_view()],
            forall|i: int|
                0 <= i < old(self).nodes_view().len() && !old(self).touched(
                    win.start_view(),
                    win.end_view(),
                    i,
                ) ==> final(self).nodes_view()[i] == old(self).nodes_view()[i],
    {
        let start = win.start;
        let end = win.end;
        let offset = win.offset;
        let len = self.dynamic_nodes_indices.len();
        if end > len {
            return false;
        }
        if start == end {
            return true;
        }
        if offset > self.dynamic_nodes_indices[start] || self.dynamic_nodes_indices[end - 1]
            - offset >= win.values.len() {
            return false;
        }
        let ghost g0 = *self;
        let mut k: usize = start;
        while k < end
            invariant
                g0.wf(),
                self.wf(),
                self.same_layout(&g0),
                win.wf(),
                start == win.start,
                end == win.end,
                offset == win.offset,
                start < end <= g0.dynamic_view().len(),
                start <= k <= end,
                offset <= g0.dynamic_view()[start as int],
                g0.dynamic_view()[end - 1] - offset < win.values@.len(),
                forall|m: int|
                    start <= m < k ==> self.nodes_view()[#[trigger] g0.dynamic_view()[m] as int]
                        == win.values@[g0.dynamic_view()[m] - offset],
                forall|i: int|
                    0 <= i < g0.nodes_view().len() && !g0.touched(start as int, k as int, i)
                        ==> self.nodes_view()[i] == g0.nodes_view()[i],
            decreases end - k,
        {
            let i = self.dynamic_nodes_indices[k];
            assert(i < self.nodes@.len());
            assert(g0.dynamic_view()[start as int] <= i) by {
                if start < k {
                    assert(self.dynamic_nodes_indices@[start as int]
                        < self.dynamic_nodes_indices@[k as int]);
                }
            }
            assert(i <= g0.dynamic_view()[end - 1]) by {
                if k < end - 1 {
                    assert(self.dynamic_nodes_indices@[k as int]
                        < self.dynamic_nodes_indices@[end - 1]);
                }
            }
            let v = win.values[i - offset];
            let ghost before = *self;
            self.nodes.set(i, v);
            assert(self.nodes@.len() == before.nodes@.len());
            assert(self.fixed@ == before.fixed@);
            assert(self.dynamic_nodes_indices@ == before.dynamic_nodes_indices@);
            assert(self.wf());
            assert forall|m: int|
                start <= m < k + 1 implies self.nodes_view()[#[trigger] g0.dynamic_view()[m] as int]
                == win.values@[g0.dynamic_view()[m] - offset] by {
                if m < k {
                    assert(self.dynamic_nodes_indices@[m] < self.dynamic_nodes_indices@[k as int]);
                }
            }
            assert forall|j: int|
                0 <= j < g0.nodes_view().len() && !g0.touched(start as int, k + 1, j) implies self.nodes_view()[j]
                == g0.nodes_view()[j] by {
                if j == i {
                    assert(g0.dynamic_view()[k as int] == j);
                }
                if g0.touched(start as int, k as int, j) {
                    let m = choose|m: int| start <= m < k && g0.dynamic_view()[m] == j;
                    assert(start <= m < k + 1 && g0.dynamic_view()[m] == j);
                }
            }
            k = k + 1;
        }
        true
    }
}

/// Strictly ascending values grow at least as fast as their places.
proof fn lemma_ascending_gap(d: Seq<usize>, a: int, b: int)
    requires
        forall|x: int, y: int| 0 <= x < y < d.len() ==> d[x] < d[y],
        0 <= a <= b < d.len(),
    ensures
        d[b] - d[a] >= b - a,
    decreases b - a,
{
    if a < b {
        lemma_ascending_gap(d, a, b - 1);
        assert(d[b - 1] < d[b]);
    }
}

/// Sectors of a grid hold at least two rows' width of dynamic positions each.
proof fn lemma_sector_width(len: int, w: int, workers: int)
    requires
        w >= 1,
        workers >= 1,
        len >= 0,
        !not_beneficial(len, w),
    ensures
        sector_count(len, w, workers) >= 2,
        len / sector_count(len, w, workers) >= 2 * w,
        sector_count(len, w, workers) * (len / sector_count(len, w, workers)) <= len,
{
    let m = max_sections(len, w);
    let c = sector_count(len, w, workers);
    let q = len / c;
    lemma_fundamental_div_mod(len, 2 * w);
    assert(c <= m && c >= 2);
    assert(c * (2 * w) <= len) by (nonlinear_arith)
        requires
            c <= m,
            c >= 0,
            w >= 1,
            len == (2 * w) * m + len % (2 * w),
            len % (2 * w) >= 0,
    ;
    lemma_fundamental_div_mod(len, c);
    assert(0 <= len % c < c);
    assert(q >= 2 * w) by (nonlinear_arith)
        requires
            c * (2 * w) <= len,
            len == c * q + len % c,
            0 <= len % c < c,
            c >= 2,
    ;
    assert(c * q <= len);
}

/// Sectors two or more places apart never meet: every dynamic position of
/// sector `j` lies more than a row beyond the last dynamic position of sector
/// `i`. So the nodes that the job of one of them reads or writes (its own
/// positions and one row on each side) hold no position that the other writes.
pub proof fn lemma_distant_sectors_apart<V: Copy>(g: &Grid<V>, workers: int, i: int, j: int)
    requires
        g.wf(),
        workers >= 1,
        !not_beneficial(g.dynamic_view().len() as int, g.width_view()),
        0 <= i,
        i + 2 <= j < sector_count(g.dynamic_view().len() as int, g.width_view(), workers),
    ensures
        ({
            let len = g.dynamic_view().len() as int;
            let b = bounds_spec(len, sector_count(len, g.width_view(), workers));
            let d = g.dynamic_view();
            &&& 0 <= b[i] < b[i + 1] <= b[j] < len
            &&& d[b[i + 1] - 1] + g.width_view() < d[b[j]]
        }),
{
    let len = g.dynamic_view().len() as int;
    let w = g.width_view();
    let c = sector_count(len, w, workers);
    let b = bounds_spec(len, c);
    let d = g.dynamic_view();
    let q = len / c;
    g.lemma_dynamic_partition();
    lemma_sector_width(len, w, workers);
    assert(b[i] == i * q && b[i + 1] == (i + 1) * q && b[j] == j * q);
    assert(0 <= i * q < (i + 1) * q) by (nonlinear_arith)
        requires
            i >= 0,
            q >= 2,
    ;
    assert(j * q - (i + 1) * q == (j - i - 1) * q) by (nonlinear_arith);
    assert((j - i - 1) * q >= q) by (nonlinear_arith)
        requires
            j - i - 1 >= 1,
            q >= 0,
    ;
    assert(j * q < len) by (nonlinear_arith)
        requires
            j < c,
            c * q <= len,
            q >= 1,
    ;
    lemma_ascending_gap(d, (i + 1) * q - 1, j * q);
}

} // verus!
