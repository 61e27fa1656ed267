use vstd::prelude::*;
use vstd::arithmetic::div_mod::lemma_fundamental_div_mod_converse;
use crate::geometry::{Coord, Size};

verus! {

/// Flat index of cell (x, y) in a row-major grid of width `w`.
pub open spec fn idx(w: int, x: int, y: int) -> int {
    y * w + x
}

pub proof fn lemma_idx_inverse(w: int, x: int, y: int)
    requires
        w > 0,
        0 <= x < w,
        0 <= y,
    ensures
        idx(w, x, y) / w == y,
        idx(w, x, y) % w == x,
{
    lemma_fundamental_div_mod_converse(idx(w, x, y), w, y, x);
}

pub proof fn lemma_idx_of_index(w: int, j: int)
    requires
        w > 0,
        0 <= j,
    ensures
        idx(w, j % w, j / w) == j,
        0 <= j % w < w,
        0 <= j / w,
        j / w <= j,
{
    vstd::arithmetic::div_mod::lemma_fundamental_div_mod(j, w);
    assert(j == (j / w) * w + j % w) by (nonlinear_arith)
        requires
            j == w * (j / w) + (j % w),
    ;
    assert(j / w <= j) by (nonlinear_arith)
        requires
            w > 0,
            j >= 0,
    ;
}

/// Row-major order of cells agrees with the order of their indices.
pub proof fn lemma_idx_order(w: int, x1: int, y1: int, x2: int, y2: int)
    requires
        w > 0,
        0 <= x1 < w,
        0 <= x2 < w,
        0 <= y1,
        0 <= y2,
    ensures
        idx(w, x1, y1) < idx(w, x2, y2) <==> (y1 < y2 || (y1 == y2 && x1 < x2)),
        idx(w, x1, y1) == idx(w, x2, y2) <==> (y1 == y2 && x1 == x2),
{
    if y1 < y2 {
        assert(y1 * w + w <= y2 * w) by (nonlinear_arith)
            requires
                y1 < y2,
                w > 0,
        ;
    } else if y2 < y1 {
        assert(y2 * w + w <= y1 * w) by (nonlinear_arith)
            requires
                y2 < y1,
                w > 0,
        ;
    }
}

/// A cell in a row before `h` has an index below `h * w`.
pub proof fn lemma_idx_bound(w: int, x: int, y: int, h: int)
    requires
        w > 0,
        0 <= x < w,
        0 <= y < h,
    ensures
        0 <= idx(w, x, y) < h * w,
        idx(w, x, y) < (y + 1) * w,
        (y + 1) * w <= h * w,
{
    assert((y + 1) * w <= h * w) by (nonlinear_arith)
        requires
            y < h,
            w > 0,
    ;
    assert((y + 1) * w == y * w + w) by (nonlinear_arith);
    assert(0 <= y * w) by (nonlinear_arith)
        requires
            y >= 0,
            w > 0,
    ;
}

/// A grid of `width` columns and `height` rows held in one row-major vector.
#[derive(Debug, Clone)]
pub struct Grid<T> {
    width: usize,
    height: usize,
    contents: Vec<T>,
}

/// The direction of one step along an axis.
#[derive(Debug, Clone, Copy, PartialEq, Eq)]
enum Op {
    Forward,
    Stay,
    Back,
}

spec fn op_delta(op: Op) -> int {
    match op {
        Op::Forward => 1,
        Op::Stay => 0,
        Op::Back => -1,
    }
}

/// `v` moved one step by `op`, unless that leaves the naturals.
fn step(v: usize, op: Op) -> (r: Option<usize>)
    requires
        v < usize::MAX,
    ensures
        v + op_delta(op) >= 0 ==> r == Some((v + op_delta(op)) as usize),
        v + op_delta(op) < 0 ==> r is None,
{
    match op {
        Op::Stay => Some(v),
        Op::Back => {
            if v == 0 {
                None
            } else {
                Some(v - 1)
            }
        },
        Op::Forward => Some(v + 1),
    }
}

/// Which cells count as neighbours.
#[derive(Debug, Clone, Copy, PartialEq, Eq)]
pub enum Neighbours {
    /// left, right, up and down
    Plus,
    /// the four diagonal cells
    X,
    /// both of the above
    Ring,
}

/// The steps to the neighbours of a cell, as (dx, dy), in the order they are visited.
pub open spec fn neighbour_offsets(n: Neighbours) -> Seq<(int, int)> {
    let plus = seq![(0int, -1int), (-1int, 0int), (1int, 0int), (0int, 1int)];
    let x = seq![(-1int, -1int), (1int, -1int), (-1int, 1int), (1int, 1int)];
    match n {
        Neighbours::Plus => plus,
        Neighbours::X => x,
        Neighbours::Ring => plus + x,
    }
}

/// The cells `c + o` for the offsets `o` in order, kept where they lie in a
/// `w` by `h` grid.
pub open spec fn shifted_in_bounds(offsets: Seq<(int, int)>, c: Coord<usize>, w: int, h: int) -> Seq<
    Coord<usize>,
>
    decreases offsets.len(),
{
    if offsets.len() == 0 {
        seq![]
    } else {
        let rest = shifted_in_bounds(offsets.drop_last(), c, w, h);
        let (dx, dy) = offsets.last();
        let x = c.x + dx;
        let y = c.y + dy;
        if 0 <= x < w && 0 <= y < h {
            rest.push(Coord { x: x as usize, y: y as usize })
        } else {
            rest
        }
    }
}

impl Neighbours {
    fn offsets(self) -> (r: Vec<Coord<Op>>)
        ensures
            r@.len() == neighbour_offsets(self).len(),
            forall|i: int|
                0 <= i < r@.len() ==> (op_delta(#[trigger] r@[i].x), op_delta(r@[i].y))
                    == neighbour_offsets(self)[i],
    {
        let mut out: Vec<Coord<Op>> = Vec::new();
        match self {
            Neighbours::Plus | Neighbours::Ring => {
                out.push(Coord { x: Op::Stay, y: Op::Back });
                out.push(Coord { x: Op::Back, y: Op::Stay });
                out.push(Coord { x: Op::Forward, y: Op::Stay });
                out.push(Coord { x: Op::Stay, y: Op::Forward });
            },
            Neighbours::X => {},
        }
        match self {
            Neighbours::X | Neighbours::Ring => {
                out.push(Coord { x: Op::Back, y: Op::Back });
                out.push(Coord { x: Op::Forward, y: Op::Back });
                out.push(Coord { x: Op::Back, y: Op::Forward });
                out.push(Coord { x: Op::Forward, y: Op::Forward });
            },
            Neighbours::Plus => {},
        }
        proof {
            assert(neighbour_offsets(self).len() == out@.len());
        }
        out
    }
}

impl<T> Size for Grid<T> {
    open spec fn size_width(&self) -> nat {
        self.grid_width()
    }

    open spec fn size_height(&self) -> nat {
        self.grid_height()
    }

    fn width(&self) -> (r: usize) {
        self.width
    }

    fn height(&self) -> (r: usize) {
        self.height
    }
}

impl<T> Grid<T> {
    pub closed spec fn grid_width(&self) -> nat {
        self.width as nat
    }

    pub closed spec fn grid_height(&self) -> nat {
        self.height as nat
    }

    /// The cells, row after row.
    pub closed spec fn cells(&self) -> Seq<T> {
        self.contents@
    }

    /// The vector that holds the cells.
    pub closed spec fn contents_vec(&self) -> Vec<T> {
        self.contents
    }

    /// The vector handed to [`Grid::with_index`] holds the grid's cells.
    pub proof fn lemma_contents_vec(&self)
        ensures
            self.contents_vec()@ == self.cells(),
    {
    }

    pub proof fn lemma_len_bound(&self)
        ensures
            self.cells().len() <= usize::MAX,
    {
        assert(self.contents.len() == self.contents@.len());
    }

    pub proof fn lemma_len_multiple(&self)
        requires
            self.wf(),
            self.grid_width() > 0,
        ensures
            self.cells().len() as int % self.grid_width() as int == 0,
            self.cells().len() as int / self.grid_width() as int == self.grid_height(),
    {
        let w = self.grid_width() as int;
        let h = self.grid_height() as int;
        assert(w * h == h * w) by (nonlinear_arith);
        vstd::arithmetic::div_mod::lemma_mod_multiples_basic(h, w);
        vstd::arithmetic::div_mod::lemma_div_multiples_vanish(h, w);
    }

    /// The vector holds exactly `width * height` cells.
    pub open spec fn wf(&self) -> bool {
        self.cells().len() == self.grid_width() * self.grid_height()
    }

    /// An empty grid of `width` columns.
    pub fn new(width: usize) -> (r: Self)
        ensures
            r.wf(),
            r.grid_width() == width,
            r.grid_height() == 0,
            r.cells() == Seq::<T>::empty(),
    {
        Grid { width, height: 0, contents: Vec::new() }
    }

    pub fn as_slice(&self) -> (r: &[T])
        ensures
            r@ == self.cells(),
    {
        self.contents.as_slice()
    }

    /// The column and row of a flat index.
    pub fn to_dimension(&self, idx: usize) -> (r: Coord<usize>)
        requires
            self.grid_width() > 0,
        ensures
            r.x == idx as nat % self.grid_width(),
            r.y == idx as nat / self.grid_width(),
    {
        let y = idx / self.width;
        let x = idx % self.width;
        Coord { x, y }
    }

    /// The flat index of a cell.
    pub fn to_index(&self, c: Coord<usize>) -> (r: usize)
        requires
            idx(self.grid_width() as int, c.x as int, c.y as int) <= usize::MAX,
        ensures
            r == idx(self.grid_width() as int, c.x as int, c.y as int),
    {
        proof {
            assert(0 <= c.y * self.width) by (nonlinear_arith);
        }
        c.y * self.width + c.x
    }

    fn coord_in_bounds(&self, c: &Coord<usize>) -> (r: bool)
        ensures
            r == (c.x < self.grid_width() && c.y < self.grid_height()),
    {
        c.x < self.width && c.y < self.height
    }

    /// The neighbours of `c` that lie in the grid, in the order of
    /// [`neighbour_offsets`].
    pub fn neighbours_coords(&self, c: Coord<usize>, neighbours: Neighbours) -> (r: Vec<Coord<usize>>)
        requires
            c.x < usize::MAX,
            c.y < usize::MAX,
        ensures
            r@ == shifted_in_bounds(
                neighbour_offsets(neighbours),
                c,
                self.grid_width() as int,
                self.grid_height() as int,
            ),
    {
        let offsets = neighbours.offsets();
        let ghost all = neighbour_offsets(neighbours);
        let ghost w = self.grid_width() as int;
        let ghost h = self.grid_height() as int;
        let mut out: Vec<Coord<usize>> = Vec::new();
        let mut i: usize = 0;
        while i < offsets.len()
            invariant
                offsets@.len() == all.len(),
                forall|k: int|
                    0 <= k < offsets@.len() ==> (op_delta(#[trigger] offsets@[k].x), op_delta(
                        offsets@[k].y,
                    )) == all[k],
                0 <= i <= offsets@.len(),
                c.x < usize::MAX,
                c.y < usize::MAX,
                w == self.grid_width(),
                h == self.grid_height(),
                out@ == shifted_in_bounds(all.take(i as int), c, w, h),
            decreases offsets.len() - i,
        {
            let o = offsets[i];
            proof {
                assert(all.take(i as int + 1).drop_last() == all.take(i as int));
                assert(all.take(i as int + 1).last() == all[i as int]);
            }
            match (step(c.x, o.x), step(c.y, o.y)) {
                (Some(x), Some(y)) => {
                    let n = Coord { x, y };
                    if self.coord_in_bounds(&n) {
                        out.push(n);
                    }
                },
                _ => {},
            }
            i += 1;
        }
        proof {
            assert(all.take(offsets@.len() as int) == all);
        }
        out
    }

    /// The flat indices of the neighbours of `c` that lie in the grid.
    fn neighbours_idx(&self, c: Coord<usize>, neighbours: Neighbours) -> (r: Vec<usize>)
        requires
            self.wf(),
            c.x < usize::MAX,
            c.y < usize::MAX,
        ensures
            r@.len() == shifted_in_bounds(
                neighbour_offsets(neighbours),
                c,
                self.grid_width() as int,
                self.grid_height() as int,
            ).len(),
            forall|k: int|
                0 <= k < r@.len() ==> {
                    let n = shifted_in_bounds(
                        neighbour_offsets(neighbours),
                        c,
                        self.grid_width() as int,
                        self.grid_height() as int,
                    )[k];
                    #[trigger] r@[k] == idx(self.grid_width() as int, n.x as int, n.y as int)
                        && r@[k] < self.cells().len()
                },
    {
        let coords = self.neighbours_coords(c, neighbours);
        let ghost w = self.grid_width() as int;
        let ghost h = self.grid_height() as int;
        proof {
            lemma_shifted_in_bounds(neighbour_offsets(neighbours), c, w, h);
            self.lemma_len_bound();
        }
        let mut out: Vec<usize> = Vec::new();
        let mut i: usize = 0;
        while i < coords.len()
            invariant
                self.wf(),
                self.cells().len() <= usize::MAX,
                w == self.grid_width(),
                h == self.grid_height(),
                forall|k: int|
                    0 <= k < coords@.len() ==> (#[trigger] coords@[k]).x < w && coords@[k].y < h,
                0 <= i <= coords@.len(),
                out@.len() == i,
                forall|k: int|
                    0 <= k < i ==> #[trigger] out@[k] == idx(
                        w,
                        coords@[k].x as int,
                        coords@[k].y as int,
                    ) && out@[k] < self.cells().len(),
            decreases coords.len() - i,
        {
            let n = coords[i];
            proof {
                lemma_idx_bound(w, n.x as int, n.y as int, h);
                assert(h * w == w * h) by (nonlinear_arith);
            }
            out.push(self.to_index(n));
            i += 1;
        }
        out
    }

    /// The cells next to `c` that lie in the grid.
    pub fn neighbours(&self, c: Coord<usize>, neighbours: Neighbours) -> (r: Vec<&T>)
        requires
            self.wf(),
            c.x < usize::MAX,
            c.y < usize::MAX,
        ensures
            r@.len() == shifted_in_bounds(
                neighbour_offsets(neighbours),
                c,
                self.grid_width() as int,
                self.grid_height() as int,
            ).len(),
            forall|k: int|
                0 <= k < r@.len() ==> {
                    let n = shifted_in_bounds(
                        neighbour_offsets(neighbours),
                        c,
                        self.grid_width() as int,
                        self.grid_height() as int,
                    )[k];
                    *#[trigger] r@[k] == self.cells()[idx(
                        self.grid_width() as int,
                        n.x as int,
                        n.y as int,
                    )]
                },
    {
        let indices = self.neighbours_idx(c, neighbours);
        let mut out: Vec<&T> = Vec::new();
        let mut i: usize = 0;
        while i < indices.len()
            invariant
                0 <= i <= indices@.len(),
                forall|k: int| 0 <= k < indices@.len() ==> #[trigger] indices@[k] < self.cells().len(),
                out@.len() == i,
                forall|k: int| 0 <= k < i ==> *#[trigger] out@[k] == self.cells()[indices@[k] as int],
            decreases indices.len() - i,
        {
            out.push(&self.contents[indices[i]]);
            i += 1;
        }
        out
    }

    pub(crate) fn cell(&self, j: usize) -> (r: &T)
        requires
            j < self.cells().len(),
        ensures
            *r == self.cells()[j as int],
    {
        &self.contents[j]
    }

    pub(crate) fn len(&self) -> (r: usize)
        ensures
            r == self.cells().len(),
    {
        self.contents.len()
    }

    pub(crate) fn set_cell(&mut self, j: usize, v: T)
        requires
            j < old(self).cells().len(),
        ensures
            final(self).cells() == old(self).cells().update(j as int, v),
            final(self).grid_width() == old(self).grid_width(),
            final(self).grid_height() == old(self).grid_height(),
    {
        self.contents.set(j, v);
    }

    /// Hands the flat index of `c` and the cells to `cb`.
    pub fn with_index<U, Cb>(&self, c: Coord<usize>, cb: Cb) -> (r: U) where
        Cb: FnOnce(usize, &Vec<T>) -> U,

        requires
            idx(self.grid_width() as int, c.x as int, c.y as int) <= usize::MAX,
            cb.requires(
                (idx(self.grid_width() as int, c.x as int, c.y as int) as usize, &self.contents_vec()),
            ),
        ensures
            self.contents_vec()@ == self.cells(),
            cb.ensures(
                (idx(self.grid_width() as int, c.x as int, c.y as int) as usize, &self.contents_vec()),
                r,
            ),
    {
        cb(self.to_index(c), &self.contents)
    }

    /// Hands the flat index of `c` and the cells, to change in place, to
    /// `cb`. Width and height stay as they were, so a closure that changes
    /// the number of cells leaves a grid that is no longer well formed.
    pub fn with_index_mut<U, Cb>(&mut self, c: Coord<usize>, cb: Cb) -> (r: U) where
        Cb: FnOnce(usize, &mut Vec<T>) -> U,

        requires
            idx(old(self).grid_width() as int, c.x as int, c.y as int) <= usize::MAX,
            forall|v: &mut Vec<T>|
                *v == old(self).contents_vec() ==> #[trigger] cb.requires(
                    (idx(old(self).grid_width() as int, c.x as int, c.y as int) as usize, v),
                ),
        ensures
            final(self).grid_width() == old(self).grid_width(),
            final(self).grid_height() == old(self).grid_height(),
            exists|v: &mut Vec<T>|
                *v == old(self).contents_vec() && *final(v) == final(self).contents_vec()
                    && #[trigger] cb.ensures(
                    (idx(old(self).grid_width() as int, c.x as int, c.y as int) as usize, v),
                    r,
                ),
    {
        let i = self.to_index(c);
        let cells = &mut self.contents;
        proof {
            assert(*cells == old(self).contents_vec());
            assert(i == idx(old(self).grid_width() as int, c.x as int, c.y as int) as usize);
            assert(cb.requires(
                (idx(old(self).grid_width() as int, c.x as int, c.y as int) as usize, cells),
            ));
        }
        cb(i, cells)
    }
}

/// The cells of `width` columns and `height` rows all set to `fill`.
pub open spec fn filled<T>(fill: T, len: nat) -> Seq<T> {
    Seq::new(len, |i: int| fill)
}

impl<T: Copy> Grid<T> {
    /// Grows the grid with `fill` cells so that it holds the row of `idx`;
    /// a grid that holds it already is left as it is.
    pub(crate) fn extend_to(&mut self, idx: usize, fill: T)
        requires
            old(self).wf(),
            old(self).grid_width() > 0,
            (idx as nat / old(self).grid_width() + 1) * old(self).grid_width() <= usize::MAX,
        ensures
            final(self).wf(),
            final(self).grid_width() == old(self).grid_width(),
            final(self).grid_height() == if idx as nat / old(self).grid_width() + 1 > old(
                self,
            ).grid_height() {
                idx as nat / old(self).grid_width() + 1
            } else {
                old(self).grid_height()
            },
            final(self).cells() == old(self).cells() + filled(
                fill,
                (final(self).cells().len() - old(self).cells().len()) as nat,
            ),
    {
        let c = self.to_dimension(idx);
        proof {
            assert(c.y + 1 <= usize::MAX) by (nonlinear_arith)
                requires
                    (c.y + 1) * self.width <= usize::MAX,
                    self.width >= 1,
            ;
        }
        let out_height = c.y + 1;
        if out_height <= self.height {
            proof {
                assert(old(self).cells() + filled(fill, 0) == old(self).cells());
            }
            return;
        }
        let end = out_height * self.width;
        proof {
            assert(self.height * self.width <= out_height * self.width) by (nonlinear_arith)
                requires
                    self.height < out_height,
            ;
            assert(self.width * self.height == self.height * self.width) by (nonlinear_arith);
        }
        let ghost start = self.contents@;
        let ghost w0 = self.width;
        let ghost h0 = self.height;
        while self.contents.len() < end
            invariant
                self.width == w0,
                self.height == h0,
                self.contents@.len() <= end,
                start.len() <= self.contents@.len(),
                self.contents@ == start + filled(fill, (self.contents@.len() - start.len()) as nat),
            decreases end - self.contents.len(),
        {
            self.contents.push(fill);
            proof {
                assert(self.contents@ == start + filled(
                    fill,
                    (self.contents@.len() - start.len()) as nat,
                ));
            }
        }
        self.height = out_height;
        proof {
            assert(out_height * self.width == self.width * out_height) by (nonlinear_arith);
        }
    }
}

impl<T: Default + Copy> Grid<T> {
    /// A grid of `width` columns and `height` rows of default cells.
    pub fn new_with_height(width: usize, height: usize) -> (r: Self)
        requires
            width > 0,
            width * height <= usize::MAX,
        ensures
            r.wf(),
            r.grid_width() == width,
            r.grid_height() == height,
            forall|i: int|
                0 <= i < r.cells().len() ==> call_ensures(T::default, (), #[trigger] r.cells()[i]),
    {
        let mut out = Self::new(width);
        if height == 0 {
            return out;
        }
        let fill = T::default();
        proof {
            assert((height - 1) * width <= width * height) by (nonlinear_arith)
                requires
                    height >= 1,
            ;
        }
        let last = out.to_index(Coord { x: 0, y: height - 1 });
        proof {
            lemma_idx_inverse(width as int, 0, height - 1);
            assert(height * width == width * height) by (nonlinear_arith);
        }
        out.extend_to(last, fill);
        out
    }
}

/// Each cell in [`shifted_in_bounds`] lies in the grid.
pub proof fn lemma_shifted_in_bounds(offsets: Seq<(int, int)>, c: Coord<usize>, w: int, h: int)
    requires
        w <= usize::MAX,
        h <= usize::MAX,
    ensures
        forall|k: int|
            0 <= k < shifted_in_bounds(offsets, c, w, h).len() ==> (#[trigger] shifted_in_bounds(
                offsets,
                c,
                w,
                h,
            )[k]).x < w && shifted_in_bounds(offsets, c, w, h)[k].y < h,
    decreases offsets.len(),
{
    if offsets.len() > 0 {
        let rest = shifted_in_bounds(offsets.drop_last(), c, w, h);
        lemma_shifted_in_bounds(offsets.drop_last(), c, w, h);
        let all = shifted_in_bounds(offsets, c, w, h);
        assert forall|k: int| 0 <= k < all.len() implies (#[trigger] all[k]).x < w && all[k].y < h by {
            if k < rest.len() {
                assert(all[k] == rest[k]);
            }
        }
    }
}

} // verus!
