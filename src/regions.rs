use vstd::prelude::*;
use std::ops::Range;
use crate::geometry::{Coord, Dimension, Size};
use crate::grid::{idx, lemma_idx_bound, lemma_idx_inverse, Grid};
use crate::packing::{covers, lemma_covers_origin, lemma_covers_range, tiled};

verus! {

/// A placed rectangle: its payload, its span in cells and its top-left cell.
#[derive(Debug, Clone, Copy, PartialEq, Eq)]
pub struct GridContent<T> {
    pub data: T,
    pub size: Dimension,
    pub origin: Coord<usize>,
}

impl<T> GridContent<T> {
    pub fn new(data: T, size: Dimension, origin: Coord<usize>) -> (r: Self)
        ensures
            r.data == data,
            r.size == size,
            r.origin == origin,
    {
        GridContent { data, size, origin }
    }

    /// The same placement with its payload passed through `cb`.
    pub fn map<U, F: FnOnce(T) -> U>(self, cb: F) -> (r: GridContent<U>)
        requires
            cb.requires((self.data,)),
        ensures
            cb.ensures((self.data,), r.data),
            r.size == self.size,
            r.origin == self.origin,
    {
        let GridContent { data, size, origin } = self;
        let data = cb(data);
        GridContent { data, size, origin }
    }

    pub fn grid_area(&self) -> (r: (&Dimension, &Coord<usize>))
        ensures
            *r.0 == self.size,
            *r.1 == self.origin,
    {
        (&self.size, &self.origin)
    }

    pub fn content(&self) -> (r: &T)
        ensures
            *r == self.data,
    {
        &self.data
    }

    /// The rows the placement spans.
    pub fn height_range(&self) -> (r: Range<usize>)
        requires
            self.origin.y + self.size.height <= usize::MAX,
        ensures
            r.start == self.origin.y,
            r.end == self.origin.y + self.size.height,
    {
        self.origin.y..self.origin.y + self.size.height
    }
}

/// Index of the top-left cell of a placement in a grid of width `w`.
pub open spec fn origin_index(w: int, p: GridContent<usize>) -> int {
    idx(w, p.origin.x as int, p.origin.y as int)
}

/// Index of the top-left cell of rectangle `k`.
pub open spec fn rect_start(w: int, origins: Seq<Coord<usize>>, k: int) -> int {
    idx(w, origins[k].x as int, origins[k].y as int)
}

/// Whether some rectangle has its top-left cell at index `c`.
pub open spec fn starts_at(w: int, origins: Seq<Coord<usize>>, c: int) -> bool {
    exists|k: int| 0 <= k < origins.len() && #[trigger] rect_start(w, origins, k) == c
}

/// The placement of rectangle `k`, with `k` as its payload.
pub open spec fn region(sizes: Seq<Dimension>, origins: Seq<Coord<usize>>, k: int) -> GridContent<
    usize,
> {
    GridContent { data: k as usize, size: sizes[k], origin: origins[k] }
}

/// The rectangles whose top-left cell comes before index `c`, in row-major
/// order of their top-left cells.
pub open spec fn regions_upto(
    w: int,
    sizes: Seq<Dimension>,
    origins: Seq<Coord<usize>>,
    c: int,
) -> Seq<GridContent<usize>>
    decreases c,
{
    if c <= 0 {
        seq![]
    } else {
        let prev = regions_upto(w, sizes, origins, c - 1);
        if starts_at(w, origins, c - 1) {
            let k = choose|k: int| 0 <= k < origins.len() && #[trigger] rect_start(w, origins, k) == c - 1;
            prev.push(region(sizes, origins, k))
        } else {
            prev
        }
    }
}

/// The rectangles of a grid cut into them, in row-major order of their top-left cells.
pub open spec fn regions(cells: Seq<Option<usize>>, w: int, sizes: Seq<Dimension>, origins: Seq<Coord<usize>>) -> Seq<GridContent<usize>> {
    regions_upto(w, sizes, origins, cells.len() as int)
}

/// Two rectangles share no rectangle start, so the start identifies the rectangle.
pub proof fn lemma_start_unique(
    cells: Seq<Option<usize>>,
    w: int,
    sizes: Seq<Dimension>,
    origins: Seq<Coord<usize>>,
    k: int,
)
    requires
        tiled(cells, w, sizes, origins),
        0 <= k < sizes.len(),
    ensures
        0 <= rect_start(w, origins, k) < cells.len(),
        cells[rect_start(w, origins, k)] == Some(k as usize),
        forall|k2: int| 0 <= k2 < sizes.len() && #[trigger] rect_start(w, origins, k2) == rect_start(w, origins, k) ==> k2 == k,
{
    let s = rect_start(w, origins, k);
    assert(1 <= sizes[k].width);
    lemma_covers_origin(w, origins[k], sizes[k]);
    lemma_idx_bound(w, origins[k].x as int, origins[k].y as int, origins[k].y + sizes[k].height);
    assert forall|k2: int| 0 <= k2 < sizes.len() && #[trigger] rect_start(w, origins, k2) == s implies k2 == k by {
        assert(1 <= sizes[k2].width);
        lemma_covers_origin(w, origins[k2], sizes[k2]);
        lemma_idx_bound(w, origins[k2].x as int, origins[k2].y as int, origins[k2].y + sizes[k2].height);
    }
}

/// What [`regions_upto`] holds: each placement is its rectangle, the starts
/// increase, and every rectangle that starts before `c` is there.
pub proof fn lemma_regions_upto(
    cells: Seq<Option<usize>>,
    w: int,
    sizes: Seq<Dimension>,
    origins: Seq<Coord<usize>>,
    c: int,
)
    requires
        tiled(cells, w, sizes, origins),
        0 <= c,
    ensures
        ({
            let rs = regions_upto(w, sizes, origins, c);
            &&& forall|i: int|
                0 <= i < rs.len() ==> {
                    let k = (#[trigger] rs[i]).data as int;
                    &&& 0 <= k < sizes.len()
                    &&& rs[i] == region(sizes, origins, k)
                    &&& rect_start(w, origins, k) < c
                }
            &&& forall|i: int, j: int|
                0 <= i < j < rs.len() ==> origin_index(w, #[trigger] rs[i]) < origin_index(
                    w,
                    #[trigger] rs[j],
                )
            &&& forall|k: int|
                0 <= k < sizes.len() && rect_start(w, origins, k) < c ==> exists|i: int|
                    0 <= i < rs.len() && (#[trigger] rs[i]).data == k
        }),
    decreases c,
{
    if c > 0 {
        lemma_regions_upto(cells, w, sizes, origins, c - 1);
        let prev = regions_upto(w, sizes, origins, c - 1);
        let rs = regions_upto(w, sizes, origins, c);
        if starts_at(w, origins, c - 1) {
            let k = choose|k: int| 0 <= k < origins.len() && #[trigger] rect_start(w, origins, k) == c - 1;
            lemma_start_unique(cells, w, sizes, origins, k);
            assert(rs == prev.push(region(sizes, origins, k)));
            assert(rs[prev.len() as int].data == k);
            assert forall|k2: int|
                0 <= k2 < sizes.len() && rect_start(w, origins, k2) < c implies exists|i: int|
                0 <= i < rs.len() && (#[trigger] rs[i]).data == k2 by {
                if rect_start(w, origins, k2) < c - 1 {
                    let i = choose|i: int| 0 <= i < prev.len() && (#[trigger] prev[i]).data == k2;
                    assert(rs[i] == prev[i]);
                } else {
                    assert(rs[prev.len() as int].data == k2);
                }
            }
            assert forall|i: int, j: int|
                0 <= i < j < rs.len() implies origin_index(w, #[trigger] rs[i]) < origin_index(
                w,
                #[trigger] rs[j],
            ) by {
                if j < prev.len() {
                    assert(rs[i] == prev[i] && rs[j] == prev[j]);
                } else {
                    assert(rs[i] == prev[i]);
                }
            }
        } else {
            assert forall|k2: int|
                0 <= k2 < sizes.len() && rect_start(w, origins, k2) < c implies exists|i: int|
                0 <= i < rs.len() && (#[trigger] rs[i]).data == k2 by {
                if rect_start(w, origins, k2) == c - 1 {
                    assert(starts_at(w, origins, c - 1));
                }
            }
        }
    }
}

/// The cells that [`regions_upto`] passes over without a start add nothing.
pub proof fn lemma_regions_skip(w: int, sizes: Seq<Dimension>, origins: Seq<Coord<usize>>, a: int, b: int)
    requires
        0 <= a <= b,
        forall|c: int| a <= c < b ==> !starts_at(w, origins, c),
    ensures
        regions_upto(w, sizes, origins, b) == regions_upto(w, sizes, origins, a),
    decreases b - a,
{
    if a < b {
        assert(!starts_at(w, origins, b - 1));
        lemma_regions_skip(w, sizes, origins, a, b - 1);
    }
}

/// Walks a grid of placed items cell by cell and gives back the rectangles
/// in row-major order of their top-left cells.
pub struct GridVisitor<T> {
    seen: Vec<bool>,
    grid: Grid<T>,
    cur: usize,
    sizes: Ghost<Seq<Dimension>>,
    origins: Ghost<Seq<Coord<usize>>>,
}

impl Grid<Option<usize>> {
    /// A visitor over a grid cut into the rectangles `origins[k]`, `sizes[k]`
    /// (as [`crate::grid::Grid::add_all`] leaves it).
    pub fn into_iter(self, sizes: Ghost<Seq<Dimension>>, origins: Ghost<Seq<Coord<usize>>>) -> (r:
        GridVisitor<Option<usize>>)
        requires
            self.wf(),
            tiled(self.cells(), self.grid_width() as int, sizes@, origins@),
        ensures
            r.inv(),
            r.emitted() == Seq::<GridContent<usize>>::empty(),
            r.all_regions() == regions(self.cells(), self.grid_width() as int, sizes@, origins@),
    {
        let len = self.len();
        let mut seen: Vec<bool> = Vec::new();
        while seen.len() < len
            invariant
                len == self.cells().len(),
                seen@.len() <= len,
                forall|j: int| 0 <= j < seen@.len() ==> !(#[trigger] seen@[j]),
            decreases len - seen.len(),
        {
            seen.push(false);
        }
        proof {
            self.lemma_len_bound();
        }
        GridVisitor { seen, grid: self, cur: 0, sizes, origins }
    }
}

impl GridVisitor<Option<usize>> {
    pub closed spec fn inv(&self) -> bool {
        let cells = self.grid.cells();
        let w = self.grid.grid_width() as int;
        &&& self.grid.wf()
        &&& tiled(cells, w, self.sizes@, self.origins@)
        &&& cells.len() <= usize::MAX
        &&& self.cur <= cells.len()
        &&& self.seen@.len() == cells.len()
        &&& forall|j: int|
            0 <= j < cells.len() ==> (#[trigger] self.seen@[j] <==> (cells[j] is Some && rect_start(
                w,
                self.origins@,
                cells[j]->0 as int,
            ) < self.cur))
    }

    /// The rectangles handed out so far.
    pub closed spec fn emitted(&self) -> Seq<GridContent<usize>> {
        regions_upto(self.grid.grid_width() as int, self.sizes@, self.origins@, self.cur as int)
    }

    /// All the rectangles, in the order they are handed out.
    pub closed spec fn all_regions(&self) -> Seq<GridContent<usize>> {
        regions(self.grid.cells(), self.grid.grid_width() as int, self.sizes@, self.origins@)
    }

    pub closed spec fn remaining(&self) -> nat {
        (self.grid.cells().len() - self.cur) as nat
    }

    /// Hands out the next rectangle; `None` once all have been.
    pub fn next(&mut self) -> (r: Option<GridContent<usize>>)
        requires
            old(self).inv(),
        ensures
            final(self).inv(),
            final(self).all_regions() == old(self).all_regions(),
            match r {
                Some(p) => {
                    &&& final(self).emitted() == old(self).emitted().push(p)
                    &&& final(self).remaining() < old(self).remaining()
                },
                None => old(self).emitted() == old(self).all_regions() && final(self).emitted()
                    == old(self).emitted(),
            },
    {
        let ghost w = self.grid.grid_width() as int;
        let ghost cells = self.grid.cells();
        let ghost sizes = self.sizes@;
        let ghost origins = self.origins@;
        let ghost start = self.emitted();
        let ghost all = self.all_regions();
        let ghost rem0 = self.remaining();
        let len = self.grid.len();
        let width = self.grid.width();
        let mut result: Option<GridContent<usize>> = None;
        loop
            invariant_except_break
                self.inv(),
                w == self.grid.grid_width(),
                cells == self.grid.cells(),
                sizes == self.sizes@,
                origins == self.origins@,
                len == cells.len(),
                width == w,
                self.emitted() == start,
                self.all_regions() == all,
                self.remaining() <= rem0,
                result is None,
            ensures
                self.inv(),
                self.all_regions() == all,
                cells == self.grid.cells(),
                w == self.grid.grid_width(),
                sizes == self.sizes@,
                origins == self.origins@,
                match result {
                    Some(p) => self.emitted() == start.push(p) && self.remaining() < rem0,
                    None => self.emitted() == start && self.cur == len,
                },
            decreases len - self.cur,
        {
            if self.cur >= len {
                break;
            }
            let cur = self.cur;
            if !self.seen[cur] {
                match *self.grid.cell(cur) {
                    Some(k) => {
                        result = Some(self.take_region(cur, k));
                        break;
                    },
                    None => {},
                }
            }
            proof {
                assert(!starts_at(w, origins, cur as int)) by {
                    if starts_at(w, origins, cur as int) {
                        let k = choose|k: int| 0 <= k < origins.len() && #[trigger] rect_start(w, origins, k) == cur;
                        lemma_start_unique(cells, w, sizes, origins, k);
                    }
                }
                lemma_regions_skip(w, sizes, origins, cur as int, cur as int + 1);
            }
            self.cur = cur + 1;
        }
        proof {
            if result is None {
                assert(self.cur == len);
                assert(len == self.grid.cells().len());
                assert(self.emitted() == self.all_regions());
                assert(start == all);
            }
        }
        result
    }

    /// All the rectangles that are left, in order.
    pub fn collect_regions(self) -> (r: Vec<GridContent<usize>>)
        requires
            self.inv(),
        ensures
            self.emitted() + r@ == self.all_regions(),
    {
        let ghost start = self.emitted();
        let ghost all = self.all_regions();
        let mut visitor = self;
        let mut out: Vec<GridContent<usize>> = Vec::new();
        loop
            invariant
                visitor.inv(),
                visitor.all_regions() == all,
                start == self.emitted(),
                all == self.all_regions(),
                start + out@ == visitor.emitted(),
            decreases visitor.remaining(),
        {
            match visitor.next() {
                Some(p) => {
                    out.push(p);
                    proof {
                        assert(start + out@ == visitor.emitted());
                    }
                },
                None => {
                    return out;
                },
            }
        }
    }

    /// Hands out the rectangle whose top-left cell is the unvisited cell `cur`,
    /// holding `k`, and moves past its first row.
    fn take_region(&mut self, cur: usize, k: usize) -> (r: GridContent<usize>)
        requires
            old(self).inv(),
            old(self).cur == cur,
            cur < old(self).grid.cells().len(),
            !old(self).seen@[cur as int],
            old(self).grid.cells()[cur as int] == Some(k),
        ensures
            final(self).inv(),
            final(self).all_regions() == old(self).all_regions(),
            final(self).emitted() == old(self).emitted().push(r),
            final(self).remaining() < old(self).remaining(),
            final(self).grid.cells() == old(self).grid.cells(),
            final(self).grid.grid_width() == old(self).grid.grid_width(),
            final(self).sizes@ == old(self).sizes@,
            final(self).origins@ == old(self).origins@,
    {
        let ghost w = self.grid.grid_width() as int;
        let ghost cells = self.grid.cells();
        let ghost sizes = self.sizes@;
        let ghost origins = self.origins@;
        let ghost old_seen = self.seen@;
        let ghost start = self.emitted();
        let ghost ki = k as int;
        let ghost o = origins[ki];
        let ghost d = sizes[ki];
        let width = self.grid.width();
        let height = self.grid.height();
        let len = self.grid.len();
        proof {
            assert(cells[cur as int] is Some);
            lemma_start_unique(cells, w, sizes, origins, ki);
            lemma_covers_range(w, o, d, cur as int);
            lemma_idx_inverse(w, o.x as int, o.y as int);
            assert(rect_start(w, origins, ki) == cur);
            self.grid.lemma_len_multiple();
            lemma_idx_bound(w, o.x as int, o.y as int, o.y + d.height);
            assert((o.y + d.height) * w <= len);
            assert(o.y + d.height <= height) by (nonlinear_arith)
                requires
                    (o.y + d.height) * w <= len,
                    len == w * height,
                    w > 0,
            ;
        }
        let c = self.grid.to_dimension(cur);
        assert(c == o);
        // the row of the top-left cell, rightwards while the cells hold `k`
        let mut x = c.x;
        while x + 1 < width && self.grid.holds_at(x + 1, c.y, k)
            invariant
                self.inv(),
                w == self.grid.grid_width(),
                cells == self.grid.cells(),
                width == w,
                0 <= ki < sizes.len(),
                sizes == self.sizes@,
                origins == self.origins@,
                o == origins[ki],
                d == sizes[ki],
                c == o,
                k == ki,
                o.x <= x < o.x + d.width,
                o.x + d.width <= w,
                height == self.grid.grid_height(),
                o.y + d.height <= height,
                (o.y + d.height) * w <= cells.len(),
            decreases width - x,
        {
            proof {
                lemma_idx_bound(w, x + 1, o.y as int, o.y + 1);
                lemma_idx_inverse(w, x + 1, o.y as int);
                assert(cells[idx(w, x + 1, o.y as int)] == Some(k));
                assert(cells[idx(w, x + 1, o.y as int)] is Some);
                assert(covers(w, o, d, idx(w, x + 1, o.y as int)));
            }
            x += 1;
        }
        proof {
            if x + 1 < o.x + d.width {
                lemma_idx_bound(w, x + 1, o.y as int, o.y + 1);
                lemma_idx_inverse(w, x + 1, o.y as int);
                assert(covers(w, o, d, idx(w, x + 1, o.y as int)));
            }
        }
        // the column of the top-left cell, downwards while the cells hold `k`
        let mut y = c.y;
        while y + 1 < height && self.grid.holds_at(c.x, y + 1, k)
            invariant
                self.inv(),
                w == self.grid.grid_width(),
                cells == self.grid.cells(),
                width == w,
                height == self.grid.grid_height(),
                0 <= ki < sizes.len(),
                sizes == self.sizes@,
                origins == self.origins@,
                o == origins[ki],
                d == sizes[ki],
                c == o,
                k == ki,
                o.y <= y < o.y + d.height,
                o.y + d.height <= height,
                o.x < w,
            decreases height - y,
        {
            proof {
                lemma_idx_bound(w, o.x as int, y + 1, height as int);
                lemma_idx_inverse(w, o.x as int, y + 1);
                assert(cells[idx(w, o.x as int, y + 1)] is Some);
                assert(covers(w, o, d, idx(w, o.x as int, y + 1)));
            }
            y += 1;
        }
        proof {
            if y + 1 < o.y + d.height {
                lemma_idx_bound(w, o.x as int, y + 1, height as int);
                lemma_idx_inverse(w, o.x as int, y + 1);
                assert(covers(w, o, d, idx(w, o.x as int, y + 1)));
            }
        }
        let size = Dimension { width: x - c.x + 1, height: y - c.y + 1 };
        assert(size == d);
        // mark the rectangle as seen
        proof {
            assert((o.y + d.height) * w >= o.y * w + w) by (nonlinear_arith)
                requires
                    d.height >= 1,
                    w > 0,
            ;
        }
        let end = (c.y + size.height) * width;
        let mut j = cur;
        while j < end
            invariant
                self.grid.wf(),
                w == self.grid.grid_width(),
                cells == self.grid.cells(),
                width == w,
                w > 0,
                self.cur == cur,
                sizes == self.sizes@,
                origins == self.origins@,
                o == origins[ki],
                d == sizes[ki],
                c == o,
                size == d,
                end <= cells.len(),
                cells.len() <= usize::MAX,
                cur + d.width <= end,
                cur <= j,
                self.seen@.len() == cells.len(),
                forall|i: int|
                    0 <= i < cells.len() ==> #[trigger] self.seen@[i] == (old_seen[i] || (cur <= i < j
                        && covers(w, o, d, i))),
            decreases end - j,
        {
            let jx = j % width;
            let jy = j / width;
            if c.x <= jx && jx - c.x < size.width && c.y <= jy && jy - c.y < size.height {
                self.seen.set(j, true);
            }
            j += 1;
        }
        self.cur = cur + size.width;
        proof {
            let next = self.cur as int;
            assert forall|t: int| cur < t < next implies !starts_at(w, origins, t) by {
                lemma_row_no_starts(cells, w, sizes, origins, ki, t - cur);
            }
            assert forall|i: int| 0 <= i < cells.len() implies (#[trigger] self.seen@[i] <==> (
            cells[i] is Some && rect_start(w, origins, cells[i]->0 as int) < next)) by {
                if covers(w, o, d, i) {
                    lemma_covers_range(w, o, d, i);
                }
                if cells[i] is Some {
                    let k2 = cells[i]->0 as int;
                    if k2 != ki {
                        assert(!covers(w, o, d, i));
                        let s2 = rect_start(w, origins, k2);
                        if cur <= s2 < next {
                            if s2 > cur {
                                assert(starts_at(w, origins, s2));
                            }
                            lemma_start_unique(cells, w, sizes, origins, k2);
                        }
                    }
                }
            }
            assert(starts_at(w, origins, cur as int)) by {
                assert(rect_start(w, origins, ki) == cur);
            }
            let k_chosen = choose|k: int| 0 <= k < origins.len() && #[trigger] rect_start(w, origins, k) == cur as int;
            lemma_start_unique(cells, w, sizes, origins, ki);
            assert(k_chosen == ki);
            assert(regions_upto(w, sizes, origins, cur as int + 1) == start.push(region(sizes, origins, ki)));
            lemma_regions_skip(w, sizes, origins, cur as int + 1, next);
        }
        GridContent { data: k, size, origin: c }
    }
}

impl Grid<Option<usize>> {
    /// Whether cell (x, y) holds `k`.
    fn holds_at(&self, x: usize, y: usize, k: usize) -> (r: bool)
        requires
            self.wf(),
            x < self.grid_width(),
            y < self.grid_height(),
        ensures
            idx(self.grid_width() as int, x as int, y as int) < self.cells().len(),
            r == (self.cells()[idx(self.grid_width() as int, x as int, y as int)] == Some(k)),
    {
        let width = self.width();
        proof {
            lemma_idx_bound(width as int, x as int, y as int, self.grid_height() as int);
            assert(self.grid_height() * width == width * self.grid_height()) by (nonlinear_arith);
            self.lemma_len_bound();
        }
        let j = y * width + x;
        match self.cell(j) {
            Some(v) => *v == k,
            None => false,
        }
    }
}

/// No other rectangle starts in the first row of rectangle `k` after its start.
pub proof fn lemma_row_no_starts(
    cells: Seq<Option<usize>>,
    w: int,
    sizes: Seq<Dimension>,
    origins: Seq<Coord<usize>>,
    k: int,
    t: int,
)
    requires
        tiled(cells, w, sizes, origins),
        0 <= k < sizes.len(),
        0 < t < sizes[k].width,
    ensures
        !starts_at(w, origins, rect_start(w, origins, k) + t),
{
    let o = origins[k];
    let s = rect_start(w, origins, k) + t;
    assert(1 <= sizes[k].width);
    lemma_idx_inverse(w, o.x + t, o.y as int);
    lemma_idx_bound(w, o.x + t, o.y as int, o.y + sizes[k].height);
    assert(covers(w, o, sizes[k], s));
    if starts_at(w, origins, s) {
        let k2 = choose|k2: int| 0 <= k2 < origins.len() && #[trigger] rect_start(w, origins, k2) == s;
        lemma_start_unique(cells, w, sizes, origins, k2);
    }
}

} // verus!
