use vstd::prelude::*;
use crate::geometry::{Coord, Dimension, Size};
use crate::grid::{idx, lemma_idx_bound, lemma_idx_inverse, lemma_idx_of_index, lemma_idx_order, Grid};

verus! {

/// Whether cell (x, y) lies in the rectangle at `origin` spanning `size`.
pub open spec fn in_rect(origin: Coord<usize>, size: Dimension, x: int, y: int) -> bool {
    origin.x <= x < origin.x + size.width && origin.y <= y < origin.y + size.height
}

/// Whether the cell at flat index `j` of a grid of width `w` lies in the rectangle.
pub open spec fn covers(w: int, origin: Coord<usize>, size: Dimension, j: int) -> bool {
    in_rect(origin, size, j % w, j / w)
}

/// The cell at flat index `i` of a grid of width `w`.
pub open spec fn coord_of(w: int, i: int) -> Coord<usize> {
    Coord { x: (i % w) as usize, y: (i / w) as usize }
}

/// An item of `size` fits with its top-left corner at `origin`: it ends at
/// the right edge at the latest, and every cell that it would cover is empty
/// (cells past the end of the grid are empty).
pub open spec fn fits(cells: Seq<Option<usize>>, w: int, origin: Coord<usize>, size: Dimension) -> bool {
    &&& origin.x + size.width <= w
    &&& forall|j: int|
        0 <= j < cells.len() && #[trigger] covers(w, origin, size, j) ==> cells[j] is None
}

/// The first index from `i` on, in row-major order, where the item fits;
/// the end of the grid when it fits nowhere before it.
pub open spec fn first_fit_from(cells: Seq<Option<usize>>, w: int, size: Dimension, i: int) -> int
    decreases cells.len() - i,
{
    if i >= cells.len() {
        cells.len() as int
    } else if fits(cells, w, coord_of(w, i), size) {
        i
    } else {
        first_fit_from(cells, w, size, i + 1)
    }
}

pub open spec fn first_fit(cells: Seq<Option<usize>>, w: int, size: Dimension) -> int {
    first_fit_from(cells, w, size, 0)
}

/// The grid after item `id` of `size` is placed at `origin`: grown, with
/// empty cells, to hold the rectangle's last row, and the rectangle marked.
pub open spec fn place(
    cells: Seq<Option<usize>>,
    w: int,
    origin: Coord<usize>,
    size: Dimension,
    id: usize,
) -> Seq<Option<usize>> {
    let end = (origin.y + size.height) * w;
    let len = if end > cells.len() {
        end
    } else {
        cells.len() as int
    };
    Seq::new(
        len as nat,
        |j: int|
            if covers(w, origin, size, j) {
                Some(id)
            } else if j < cells.len() {
                cells[j]
            } else {
                None
            },
    )
}

/// First-fit packing of items of the given sizes onto `base`, in order; item
/// `k` is marked with `k`.
pub open spec fn pack_onto(base: Seq<Option<usize>>, sizes: Seq<Dimension>, w: int) -> Seq<
    Option<usize>,
>
    decreases sizes.len(),
{
    if sizes.len() == 0 {
        base
    } else {
        let prev = pack_onto(base, sizes.drop_last(), w);
        let at = first_fit(prev, w, sizes.last());
        place(prev, w, coord_of(w, at), sizes.last(), (sizes.len() - 1) as usize)
    }
}

/// First-fit packing onto an empty grid.
pub open spec fn pack(sizes: Seq<Dimension>, w: int) -> Seq<Option<usize>> {
    pack_onto(seq![], sizes, w)
}

/// Where item `k` lands when the items are packed onto an empty grid.
pub open spec fn pack_origin(sizes: Seq<Dimension>, w: int, k: int) -> Coord<usize> {
    coord_of(w, first_fit(pack(sizes.take(k), w), w, sizes[k]))
}

pub open spec fn pack_origins(sizes: Seq<Dimension>, w: int) -> Seq<Coord<usize>> {
    Seq::new(sizes.len(), |k: int| pack_origin(sizes, w, k))
}

pub open spec fn sum_heights(sizes: Seq<Dimension>) -> nat
    decreases sizes.len(),
{
    if sizes.len() == 0 {
        0
    } else {
        sum_heights(sizes.drop_last()) + sizes.last().height as nat
    }
}

/// Every size is at least one cell each way and at most `w` cells wide.
pub open spec fn sizes_fit_width(sizes: Seq<Dimension>, w: int) -> bool {
    forall|k: int|
        0 <= k < sizes.len() ==> 1 <= (#[trigger] sizes[k]).width <= w && 1 <= sizes[k].height
}

/// `cells` is a grid of width `w` cut into the rectangles `origins[k]`,
/// `sizes[k]`: cell `j` holds `Some(k)` exactly when rectangle `k` covers it,
/// and `None` when none does.
pub open spec fn tiled(
    cells: Seq<Option<usize>>,
    w: int,
    sizes: Seq<Dimension>,
    origins: Seq<Coord<usize>>,
) -> bool {
    &&& w > 0
    &&& cells.len() as int % w == 0
    &&& sizes.len() == origins.len()
    &&& sizes.len() <= usize::MAX
    &&& forall|k: int|
        0 <= k < sizes.len() ==> {
            &&& 1 <= (#[trigger] sizes[k]).width
            &&& 1 <= sizes[k].height
            &&& origins[k].x + sizes[k].width <= w
            &&& (origins[k].y + sizes[k].height) * w <= cells.len()
        }
    &&& forall|j: int|
        0 <= j < cells.len() && (#[trigger] cells[j]) is Some ==> {
            let k = cells[j]->0 as int;
            k < sizes.len() && covers(w, origins[k], sizes[k], j)
        }
    &&& forall|j: int, k: int|
        0 <= j < cells.len() && 0 <= k < sizes.len() && #[trigger] covers(w, origins[k], sizes[k], j)
            ==> cells[j] == Some(k as usize)
}

/// A covered index lies between the rectangle's first cell and the end of its last row.
pub proof fn lemma_covers_range(w: int, origin: Coord<usize>, size: Dimension, j: int)
    requires
        w > 0,
        0 <= j,
        origin.x < w,
        covers(w, origin, size, j),
    ensures
        idx(w, origin.x as int, origin.y as int) <= j,
        j < (origin.y + size.height) * w,
{
    lemma_idx_of_index(w, j);
    lemma_idx_order(w, origin.x as int, origin.y as int, j % w, j / w);
    lemma_idx_bound(w, j % w, j / w, origin.y + size.height);
}

/// The top-left cell of a rectangle is covered by it.
pub proof fn lemma_covers_origin(w: int, origin: Coord<usize>, size: Dimension)
    requires
        w > 0,
        origin.x < w,
        size.width >= 1,
        size.height >= 1,
    ensures
        covers(w, origin, size, idx(w, origin.x as int, origin.y as int)),
        coord_of(w, idx(w, origin.x as int, origin.y as int)) == origin,
{
    lemma_idx_inverse(w, origin.x as int, origin.y as int);
}

/// Nothing fits at the indices from `a` to `b`, so the search may start at `b`.
pub proof fn lemma_first_fit_skip(cells: Seq<Option<usize>>, w: int, size: Dimension, a: int, b: int)
    requires
        0 <= a <= b <= cells.len(),
        forall|k: int| a <= k < b ==> !fits(cells, w, #[trigger] coord_of(w, k), size),
    ensures
        first_fit_from(cells, w, size, a) == first_fit_from(cells, w, size, b),
    decreases b - a,
{
    if a < b {
        assert(!fits(cells, w, coord_of(w, a), size));
        lemma_first_fit_skip(cells, w, size, a + 1, b);
    }
}

/// The first fit is a place where the item fits, at the end of the grid at the latest.
pub proof fn lemma_first_fit_fits(cells: Seq<Option<usize>>, w: int, size: Dimension, i: int)
    requires
        w > 0,
        cells.len() as int % w == 0,
        cells.len() <= usize::MAX,
        1 <= size.width <= w,
        0 <= i <= cells.len(),
    ensures
        i <= first_fit_from(cells, w, size, i) <= cells.len(),
        fits(cells, w, coord_of(w, first_fit_from(cells, w, size, i)), size),
    decreases cells.len() - i,
{
    let len = cells.len() as int;
    if i >= len {
        lemma_idx_of_index(w, len);
        let o = coord_of(w, len);
        assert(o.x == 0);
        assert(o.y == len / w);
        assert forall|j: int| 0 <= j < len && #[trigger] covers(w, o, size, j) implies cells[j] is None by {
            lemma_idx_of_index(w, j);
            lemma_idx_order(w, j % w, j / w, 0, len / w);
            assert(idx(w, 0, len / w) == len);
        }
    } else if !fits(cells, w, coord_of(w, i), size) {
        lemma_first_fit_fits(cells, w, size, i + 1);
    }
}

/// `(a + b) * w` stays below the bound when `a + b` does after scaling.
proof fn lemma_mul_le(a: int, b: int, w: int)
    requires
        a <= b,
        w >= 0,
    ensures
        a * w <= b * w,
{
    assert(a * w <= b * w) by (nonlinear_arith)
        requires
            a <= b,
            w >= 0,
    ;
}

pub proof fn lemma_sum_heights_prefix(sizes: Seq<Dimension>, k: int)
    requires
        0 <= k <= sizes.len(),
    ensures
        sum_heights(sizes.take(k)) <= sum_heights(sizes),
    decreases sizes.len(),
{
    if k < sizes.len() {
        assert(sizes.drop_last().take(k) == sizes.take(k));
        lemma_sum_heights_prefix(sizes.drop_last(), k);
    } else {
        assert(sizes.take(k) == sizes);
    }
}

/// Placing an item where it fits keeps the grid cut into rectangles.
pub proof fn lemma_place_tiled(
    cells: Seq<Option<usize>>,
    w: int,
    sizes: Seq<Dimension>,
    origins: Seq<Coord<usize>>,
    origin: Coord<usize>,
    size: Dimension,
)
    requires
        tiled(cells, w, sizes, origins),
        fits(cells, w, origin, size),
        1 <= size.width,
        1 <= size.height,
        sizes.len() < usize::MAX,
    ensures
        tiled(
            place(cells, w, origin, size, sizes.len() as usize),
            w,
            sizes.push(size),
            origins.push(origin),
        ),
{
    let n = sizes.len() as int;
    let next = place(cells, w, origin, size, n as usize);
    let sizes2 = sizes.push(size);
    let origins2 = origins.push(origin);
    let end = (origin.y + size.height) * w;
    assert(end % w == 0) by {
        vstd::arithmetic::div_mod::lemma_mod_multiples_basic(origin.y + size.height, w);
    }
    assert forall|k: int| 0 <= k < sizes2.len() implies {
        &&& 1 <= (#[trigger] sizes2[k]).width
        &&& 1 <= sizes2[k].height
        &&& origins2[k].x + sizes2[k].width <= w
        &&& (origins2[k].y + sizes2[k].height) * w <= next.len()
    } by {
        if k < n {
            assert(sizes2[k] == sizes[k]);
            assert(origins2[k] == origins[k]);
        }
    }
    assert forall|j: int| 0 <= j < next.len() && (#[trigger] next[j]) is Some implies {
        let k = next[j]->0 as int;
        k < sizes2.len() && covers(w, origins2[k], sizes2[k], j)
    } by {
        if !covers(w, origin, size, j) {
            assert(j < cells.len());
            assert(cells[j] is Some);
            let k = cells[j]->0 as int;
            assert(origins2[k] == origins[k]);
            assert(sizes2[k] == sizes[k]);
        }
    }
    assert forall|j: int, k: int|
        0 <= j < next.len() && 0 <= k < sizes2.len() && #[trigger] covers(
            w,
            origins2[k],
            sizes2[k],
            j,
        ) implies next[j] == Some(k as usize) by {
        if k < n {
            assert(origins2[k] == origins[k]);
            assert(sizes2[k] == sizes[k]);
            lemma_covers_range(w, origins[k], sizes[k], j);
            assert(cells[j] == Some(k as usize));
            if covers(w, origin, size, j) {
                assert(cells[j] is None);
            }
        }
    }
}

/// Packing one more item leaves the landing places of the others as they were.
pub proof fn lemma_pack_origins_push(sizes: Seq<Dimension>, w: int)
    requires
        sizes.len() > 0,
    ensures
        pack_origins(sizes, w) == pack_origins(sizes.drop_last(), w).push(
            pack_origin(sizes, w, sizes.len() - 1),
        ),
{
    let front = sizes.drop_last();
    let n = sizes.len() as int;
    assert forall|k: int| 0 <= k < n - 1 implies #[trigger] pack_origin(sizes, w, k) == pack_origin(
        front,
        w,
        k,
    ) by {
        assert(front.take(k) == sizes.take(k));
    }
    assert(pack_origins(sizes, w) =~= pack_origins(front, w).push(pack_origin(sizes, w, n - 1)));
}

/// The grid grows by at most the item heights, in whole rows.
pub proof fn lemma_pack_len(base: Seq<Option<usize>>, sizes: Seq<Dimension>, w: int)
    requires
        w > 0,
        base.len() as int % w == 0,
        sizes_fit_width(sizes, w),
    ensures
        pack_onto(base, sizes, w).len() as int % w == 0,
        pack_onto(base, sizes, w).len() <= base.len() + sum_heights(sizes) * w,
    decreases sizes.len(),
{
    if sizes.len() > 0 {
        let front = sizes.drop_last();
        lemma_pack_len(base, front, w);
        let prev = pack_onto(base, front, w);
        let size = sizes.last();
        let at = first_fit(prev, w, size);
        assert(size == sizes[sizes.len() - 1]);
        lemma_first_fit_range(prev, w, size, 0);
        let o = coord_of(w, at);
        lemma_idx_of_index(w, prev.len() as int);
        assert(o.y <= prev.len() as int / w) by {
            vstd::arithmetic::div_mod::lemma_div_is_ordered(at, prev.len() as int, w);
        }
        assert((o.y + size.height) * w <= prev.len() + size.height * w) by (nonlinear_arith)
            requires
                o.y <= prev.len() as int / w,
                prev.len() as int == (prev.len() as int / w) * w,
                w > 0,
        ;
        assert(sum_heights(sizes) * w == sum_heights(front) * w + size.height * w) by (nonlinear_arith)
            requires
                sum_heights(sizes) == sum_heights(front) + size.height,
        ;
        assert(((o.y + size.height) * w) % w == 0) by {
            vstd::arithmetic::div_mod::lemma_mod_multiples_basic(o.y + size.height, w);
        }
    }
}

/// The first fit lies between `i` and the end of the grid.
pub proof fn lemma_first_fit_range(cells: Seq<Option<usize>>, w: int, size: Dimension, i: int)
    requires
        0 <= i <= cells.len(),
    ensures
        i <= first_fit_from(cells, w, size, i) <= cells.len(),
    decreases cells.len() - i,
{
    if i < cells.len() && !fits(cells, w, coord_of(w, i), size) {
        lemma_first_fit_range(cells, w, size, i + 1);
    }
}

/// The first-fit packing of items onto an empty grid cuts it into their rectangles.
pub proof fn lemma_pack_tiled(sizes: Seq<Dimension>, w: int)
    requires
        w > 0,
        sizes_fit_width(sizes, w),
        sum_heights(sizes) * w <= usize::MAX,
        sizes.len() <= usize::MAX,
    ensures
        tiled(pack(sizes, w), w, sizes, pack_origins(sizes, w)),
    decreases sizes.len(),
{
    let n = sizes.len() as int;
    if n == 0 {
        assert(pack_origins(sizes, w) =~= Seq::<Coord<usize>>::empty());
    } else {
        let front = sizes.drop_last();
        assert(sum_heights(front) * w <= sum_heights(sizes) * w) by (nonlinear_arith)
            requires
                sum_heights(front) <= sum_heights(sizes),
                w > 0,
        ;
        lemma_pack_tiled(front, w);
        lemma_pack_origins_push(sizes, w);
        assert(sizes.take(n - 1) == front);
        let prev = pack(front, w);
        lemma_pack_len(seq![], front, w);
        assert(sizes[n - 1] == sizes.last());
        lemma_first_fit_fits(prev, w, sizes.last(), 0);
        lemma_place_tiled(prev, w, front, pack_origins(front, w), pack_origin(sizes, w, n - 1), sizes.last());
        assert(front.push(sizes.last()) == sizes);
    }
}

impl Grid<Option<usize>> {
    /// Whether an item of `size` fits with its top-left corner at `index`.
    fn does_fit_at(&self, index: usize, size: &Dimension) -> (r: bool)
        requires
            self.wf(),
            self.grid_width() > 0,
            1 <= size.width,
            1 <= size.height,
            index <= self.cells().len(),
            (self.grid_height() + size.height) * self.grid_width() <= usize::MAX,
        ensures
            r == fits(self.cells(), self.grid_width() as int, coord_of(self.grid_width() as int, index as int), *size),
    {
        let ghost w = self.grid_width() as int;
        let ghost cells = self.cells();
        let width = self.width();
        let c = self.to_dimension(index);
        proof {
            lemma_idx_of_index(w, index as int);
        }
        if size.width > width - c.x {
            return false;
        }
        let ghost o = coord_of(w, index as int);
        proof {
            assert(c.y <= self.grid_height()) by (nonlinear_arith)
                requires
                    c.y == index as int / w,
                    index <= w * self.grid_height(),
                    w > 0,
            ;
            lemma_mul_le(c.y + size.height, self.grid_height() + size.height, w);
            lemma_mul_le(1, w, c.y + size.height);
        }
        let end = (c.y + size.height) * width;
        let len = self.len();
        let stop = if end < len {
            end
        } else {
            len
        };
        let mut j = index;
        while j < stop
            invariant
                self.wf(),
                w == self.grid_width(),
                w > 0,
                width == w,
                cells == self.cells(),
                stop <= cells.len(),
                index <= j,
                o == coord_of(w, index as int),
                c.x == o.x,
                c.y == o.y,
                forall|k: int| index <= k < j && #[trigger] covers(w, o, *size, k) ==> cells[k] is None,
            decreases stop - j,
        {
            let x = j % width;
            let y = j / width;
            if c.x <= x && x - c.x < size.width && c.y <= y && y - c.y < size.height {
                if self.cell(j).is_some() {
                    proof {
                        assert(covers(w, o, *size, j as int));
                    }
                    return false;
                }
            }
            j += 1;
        }
        proof {
            assert forall|k: int| 0 <= k < cells.len() && #[trigger] covers(w, o, *size, k) implies cells[k] is None by {
                lemma_covers_range(w, o, *size, k);
            }
        }
        true
    }

    /// The first index, in row-major order, where an item of `size` fits;
    /// the end of the grid when none does.
    fn first_fit(&self, size: &Dimension) -> (r: usize)
        requires
            self.wf(),
            self.grid_width() > 0,
            1 <= size.width <= self.grid_width(),
            1 <= size.height,
            (self.grid_height() + size.height) * self.grid_width() <= usize::MAX,
        ensures
            r == first_fit(self.cells(), self.grid_width() as int, *size),
    {
        let ghost w = self.grid_width() as int;
        let ghost cells = self.cells();
        let len = self.len();
        let mut i: usize = 0;
        while i < len
            invariant
                self.wf(),
                w == self.grid_width(),
                w > 0,
                cells == self.cells(),
                len == cells.len(),
                1 <= size.width <= w,
                1 <= size.height,
                (self.grid_height() + size.height) * self.grid_width() <= usize::MAX,
                i <= len,
                forall|k: int| 0 <= k < i ==> !fits(cells, w, #[trigger] coord_of(w, k), *size),
            decreases len - i,
        {
            if self.cell(i).is_none() && self.does_fit_at(i, size) {
                proof {
                    lemma_first_fit_skip(cells, w, *size, 0, i as int);
                }
                return i;
            }
            proof {
                if self.cells()[i as int] is Some {
                    lemma_idx_of_index(w, i as int);
                    let o = coord_of(w, i as int);
                    assert(covers(w, o, *size, i as int));
                }
            }
            i += 1;
        }
        proof {
            lemma_first_fit_skip(cells, w, *size, 0, len as int);
        }
        len
    }

    /// Marks the rectangle of `size` with its top-left corner at `index` with
    /// `id`, growing the grid to hold its last row.
    fn insert_at(&mut self, index: usize, id: usize, size: &Dimension)
        requires
            old(self).wf(),
            old(self).grid_width() > 0,
            1 <= size.width,
            1 <= size.height,
            index <= old(self).cells().len(),
            (index as int % old(self).grid_width() as int) + size.width <= old(self).grid_width(),
            (old(self).grid_height() + size.height) * old(self).grid_width() <= usize::MAX,
        ensures
            final(self).wf(),
            final(self).grid_width() == old(self).grid_width(),
            final(self).cells() == place(
                old(self).cells(),
                old(self).grid_width() as int,
                coord_of(old(self).grid_width() as int, index as int),
                *size,
                id,
            ),
            final(self).grid_height() <= old(self).grid_height() + size.height,
    {
        let ghost w = old(self).grid_width() as int;
        let ghost h = old(self).grid_height() as int;
        let ghost before = old(self).cells();
        let width = self.width();
        let c = self.to_dimension(index);
        let ghost o = coord_of(w, index as int);
        proof {
            lemma_idx_of_index(w, index as int);
            assert(c.y <= h) by (nonlinear_arith)
                requires
                    c.y == index as int / w,
                    index <= w * h,
                    w > 0,
            ;
            lemma_mul_le(c.y + size.height, h + size.height, w);
            lemma_mul_le(1, w, c.y + size.height);
            assert((c.y + size.height) * w == c.y * w + size.height * w) by (nonlinear_arith);
            assert(size.height * w >= w) by (nonlinear_arith)
                requires
                    size.height >= 1,
                    w > 0,
            ;
        }
        let last_row = c.y + size.height - 1;
        let end = (c.y + size.height) * width;
        proof {
            lemma_mul_le(last_row as int, c.y + size.height, w);
        }
        let row_start = last_row * width;
        proof {
            lemma_idx_inverse(w, 0, last_row as int);
            assert(row_start == (c.y + size.height) * w - w) by (nonlinear_arith)
                requires
                    row_start == last_row * w,
                    last_row == c.y + size.height - 1,
            ;
        }
        self.extend_to(row_start, None);
        let ghost base = self.cells();
        let ghost h1 = self.grid_height();
        proof {
            assert(self.cells().len() == w * self.grid_height());
            if c.y + size.height > h {
                assert(self.cells().len() == end) by (nonlinear_arith)
                    requires
                        self.cells().len() == w * (c.y + size.height),
                        end == (c.y + size.height) * w,
                ;
            } else {
                lemma_mul_le(c.y + size.height, h, w);
                assert(w * h == h * w) by (nonlinear_arith);
            }
        }
        let mut j = index;
        while j < end
            invariant
                self.wf(),
                self.grid_width() == w,
                self.grid_height() == h1,
                w > 0,
                width == w,
                self.cells().len() == base.len(),
                end <= base.len(),
                index <= j,
                o == coord_of(w, index as int),
                c.x == o.x,
                c.y == o.y,
                forall|k: int|
                    0 <= k < base.len() ==> #[trigger] self.cells()[k] == if index <= k < j
                        && covers(w, o, *size, k) {
                        Some(id)
                    } else {
                        base[k]
                    },
            decreases end - j,
        {
            let x = j % width;
            let y = j / width;
            if c.x <= x && x - c.x < size.width && c.y <= y && y - c.y < size.height {
                self.set_cell(j, Some(id));
            }
            j += 1;
        }
        proof {
            let target = place(before, w, o, *size, id);
            assert(target.len() == base.len());
            assert forall|k: int| 0 <= k < base.len() implies #[trigger] self.cells()[k] == target[k] by {
                if covers(w, o, *size, k) {
                    lemma_covers_range(w, o, *size, k);
                }
                if k >= before.len() {
                    assert(base[k] == base.subrange(before.len() as int, base.len() as int)[k - before.len()]);
                }
            }
            assert(self.cells() == target);
        }
    }

    /// Packs the items in order, each at the first place in row-major order
    /// where it fits (see [`pack_onto`]); item `k` is marked with `k`.
    pub fn add_all<S: Size>(&mut self, data: &[S])
        requires
            old(self).wf(),
            old(self).grid_width() > 0,
            sizes_fit_width(sizes_of(data@), old(self).grid_width() as int),
            (old(self).grid_height() + sum_heights(sizes_of(data@))) * old(self).grid_width()
                <= usize::MAX,
        ensures
            final(self).wf(),
            final(self).grid_width() == old(self).grid_width(),
            final(self).cells() == pack_onto(
                old(self).cells(),
                sizes_of(data@),
                old(self).grid_width() as int,
            ),
    {
        let ghost w = old(self).grid_width() as int;
        let ghost h0 = old(self).grid_height() as int;
        let ghost base = old(self).cells();
        let ghost sizes = sizes_of(data@);
        let mut k: usize = 0;
        while k < data.len()
            invariant
                self.wf(),
                self.grid_width() == w,
                w > 0,
                sizes == sizes_of(data@),
                sizes_fit_width(sizes, w),
                (h0 + sum_heights(sizes)) * w <= usize::MAX,
                k <= data@.len(),
                self.cells() == pack_onto(base, sizes.take(k as int), w),
                self.grid_height() <= h0 + sum_heights(sizes.take(k as int)),
            decreases data.len() - k,
        {
            let size = Dimension { width: data[k].width(), height: data[k].height() };
            proof {
                assert(size == sizes[k as int]);
                assert(sizes.take(k as int + 1).drop_last() == sizes.take(k as int));
                assert(sizes.take(k as int + 1).last() == size);
                lemma_sum_heights_prefix(sizes, k as int + 1);
                lemma_mul_le(self.grid_height() + size.height, h0 + sum_heights(sizes), w);
            }
            let at = self.first_fit(&size);
            proof {
                self.lemma_len_multiple();
                self.lemma_len_bound();
                lemma_first_fit_fits(self.cells(), w, size, 0);
                lemma_idx_of_index(w, at as int);
            }
            self.insert_at(at, k, &size);
            k += 1;
        }
        proof {
            assert(sizes.take(data@.len() as int) == sizes);
        }
    }
}

/// The sizes of the items, in order.
pub open spec fn sizes_of<S: Size>(data: Seq<S>) -> Seq<Dimension> {
    Seq::new(
        data.len(),
        |i: int| Dimension { width: data[i].size_width() as usize, height: data[i].size_height() as usize },
    )
}

} // verus!
