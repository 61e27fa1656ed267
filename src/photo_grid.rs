use vstd::prelude::*;
use crate::geometry::{Dimension, Intersect, Size};
use crate::grid::{idx, lemma_idx_bound, lemma_idx_inverse, Grid};
use crate::packing::{
    covers, lemma_pack_len, lemma_pack_tiled, pack, pack_origins, sizes_fit_width, sizes_of,
    sum_heights,
};
use crate::regions::{lemma_regions_upto, origin_index, rect_start, regions, GridContent};

verus! {

/// The placements of items of the given sizes packed first-fit into `w`
/// columns, each carrying the item's ordinal, in row-major order of their
/// top-left cells.
pub open spec fn layout(sizes: Seq<Dimension>, w: int) -> Seq<GridContent<usize>> {
    regions(pack(sizes, w), w, sizes, pack_origins(sizes, w))
}

/// The placements with each ordinal replaced by the item it stands for.
pub open spec fn resolve<T>(items: Seq<T>, placements: Seq<GridContent<usize>>) -> Seq<GridContent<T>> {
    Seq::new(
        placements.len(),
        |i: int|
            GridContent {
                data: items[placements[i].data as int],
                size: placements[i].size,
                origin: placements[i].origin,
            },
    )
}

/// Whether two placements share a cell.
pub open spec fn overlap<T, U>(a: GridContent<T>, b: GridContent<U>) -> bool {
    &&& a.origin.x < b.origin.x + b.size.width
    &&& b.origin.x < a.origin.x + a.size.width
    &&& a.origin.y < b.origin.y + b.size.height
    &&& b.origin.y < a.origin.y + a.size.height
}

/// No two placements share a cell.
pub open spec fn pairwise_disjoint<T>(ps: Seq<GridContent<T>>) -> bool {
    forall|i: int, j: int|
        0 <= i < ps.len() && 0 <= j < ps.len() && i != j ==> !overlap(#[trigger] ps[i], #[trigger] ps[j])
}

/// Every placement ends at the right edge of `w` columns at the latest.
pub open spec fn within_width<T>(ps: Seq<GridContent<T>>, w: int) -> bool {
    forall|i: int| 0 <= i < ps.len() ==> (#[trigger] ps[i]).origin.x + ps[i].size.width <= w
}

/// Some placement carries `k`.
pub open spec fn has_payload(ps: Seq<GridContent<usize>>, k: int) -> bool {
    exists|i: int| 0 <= i < ps.len() && (#[trigger] ps[i]).data == k
}

/// Each ordinal below `n` is the payload of exactly one placement, and no
/// other payload occurs.
pub open spec fn each_once(ps: Seq<GridContent<usize>>, n: int) -> bool {
    &&& forall|i: int| 0 <= i < ps.len() ==> (#[trigger] ps[i]).data < n
    &&& forall|k: int| 0 <= k < n ==> #[trigger] has_payload(ps, k)
    &&& forall|i: int, j: int|
        0 <= i < ps.len() && 0 <= j < ps.len() && i != j ==> (#[trigger] ps[i]).data != (
        #[trigger] ps[j]).data
}

/// The sizes can be packed into `w` columns within the machine's index range.
pub open spec fn packable(sizes: Seq<Dimension>, w: int) -> bool {
    &&& w > 0
    &&& sizes_fit_width(sizes, w)
    &&& sum_heights(sizes) * w <= usize::MAX
    &&& sizes.len() < usize::MAX
}

/// A packing places every item exactly once, with its own size, inside the
/// grid's width, and no two placements share a cell.
pub proof fn lemma_layout(sizes: Seq<Dimension>, w: int)
    requires
        packable(sizes, w),
    ensures
        each_once(layout(sizes, w), sizes.len() as int),
        pairwise_disjoint(layout(sizes, w)),
        within_width(layout(sizes, w), w),
        layout(sizes, w).len() == sizes.len(),
        forall|i: int|
            0 <= i < layout(sizes, w).len() ==> (#[trigger] layout(sizes, w)[i]).origin.y
                + layout(sizes, w)[i].size.height <= usize::MAX,
        forall|i: int|
            0 <= i < layout(sizes, w).len() ==> (#[trigger] layout(sizes, w)[i]).size
                == sizes[layout(sizes, w)[i].data as int],
{
    let cells = pack(sizes, w);
    let origins = pack_origins(sizes, w);
    let n = sizes.len() as int;
    lemma_pack_tiled(sizes, w);
    lemma_regions_upto(cells, w, sizes, origins, cells.len() as int);
    let ps = layout(sizes, w);
    assert forall|k: int| 0 <= k < n implies rect_start(w, origins, k) < cells.len() by {
        assert(1 <= sizes[k].width);
        lemma_idx_bound(w, origins[k].x as int, origins[k].y as int, origins[k].y + sizes[k].height);
    }
    assert forall|i: int, j: int|
        0 <= i < ps.len() && 0 <= j < ps.len() && i != j implies (#[trigger] ps[i]).data != (
        #[trigger] ps[j]).data by {
        if i < j {
            assert(origin_index(w, ps[i]) < origin_index(w, ps[j]));
        } else {
            assert(origin_index(w, ps[j]) < origin_index(w, ps[i]));
        }
    }
    assert forall|i: int, j: int|
        0 <= i < ps.len() && 0 <= j < ps.len() && i != j implies !overlap(
        #[trigger] ps[i],
        #[trigger] ps[j],
    ) by {
        let a = ps[i];
        let b = ps[j];
        let ka = a.data as int;
        let kb = b.data as int;
        if overlap(a, b) {
            let cx = if a.origin.x < b.origin.x {
                b.origin.x as int
            } else {
                a.origin.x as int
            };
            let cy = if a.origin.y < b.origin.y {
                b.origin.y as int
            } else {
                a.origin.y as int
            };
            assert(sizes[ka].width >= 1);
            lemma_idx_inverse(w, cx, cy);
            lemma_idx_bound(w, cx, cy, origins[ka].y + sizes[ka].height);
            let c = idx(w, cx, cy);
            assert(covers(w, origins[ka], sizes[ka], c));
            assert(covers(w, origins[kb], sizes[kb], c));
        }
    }
    assert forall|k: int| 0 <= k < n implies #[trigger] has_payload(ps, k) by {
        assert(rect_start(w, origins, k) < cells.len());
    }
    // as many placements as items: the payloads are distinct ordinals below n
    lemma_distinct_payloads_len(ps, n);
    lemma_pack_len(seq![], sizes, w);
    assert forall|i: int| 0 <= i < ps.len() implies (#[trigger] ps[i]).origin.y + ps[i].size.height
        <= usize::MAX by {
        let k = ps[i].data as int;
        assert((origins[k].y + sizes[k].height) * w <= cells.len());
        assert(origins[k].y + sizes[k].height <= (origins[k].y + sizes[k].height) * w) by (nonlinear_arith)
            requires
                w >= 1,
                origins[k].y + sizes[k].height >= 0,
        ;
    }
}

/// Distinct payloads that cover every ordinal below `n`, and nothing else,
/// number exactly `n`.
pub proof fn lemma_distinct_payloads_len(ps: Seq<GridContent<usize>>, n: int)
    requires
        each_once(ps, n),
        0 <= n,
    ensures
        ps.len() == n,
{
    let ids = Seq::new(ps.len(), |i: int| ps[i].data as int);
    let s = ids.to_set();
    assert(ids.no_duplicates()) by {
        assert forall|i: int, j: int| 0 <= i < ids.len() && 0 <= j < ids.len() && i != j implies ids[i]
            != ids[j] by {
            assert(ps[i].data != ps[j].data);
        }
    }
    ids.unique_seq_to_set();
    assert(s =~= Set::new(|k: int| 0 <= k < n)) by {
        assert forall|k: int| s.contains(k) implies 0 <= k < n by {
            let i = choose|i: int| 0 <= i < ids.len() && ids[i] == k;
            assert(ps[i].data < n);
        }
        assert forall|k: int| 0 <= k < n implies s.contains(k) by {
            assert(has_payload(ps, k));
            let i = choose|i: int| 0 <= i < ps.len() && (#[trigger] ps[i]).data == k;
            assert(ids[i] == k);
        }
    }
    vstd::set_lib::lemma_int_range(0, n);
    assert(Set::new(|k: int| 0 <= k < n) =~= vstd::set_lib::set_int_range(0, n));
}

/// One breakpoint's layout: placements of the items in `width` columns.
#[derive(Debug, Clone)]
pub struct PhotoGrid<T> {
    pub grid: Vec<GridContent<T>>,
    pub width: usize,
}

impl<T: Copy> PhotoGrid<T> {
    /// Packs the items, of the given sizes, first-fit into `width` columns
    /// and gives each its placement.
    pub fn new_with_sizes(photos: &[T], width: usize, sizes: &[Dimension]) -> (r: Self)
        requires
            sizes@.len() == photos@.len(),
            packable(sizes@, width as int),
        ensures
            r.width == width,
            r.grid@ == resolve(photos@, layout(sizes@, width as int)),
    {
        let ghost w = width as int;
        let mut grid: Grid<Option<usize>> = Grid::new(width);
        proof {
            assert(grid.cells() == Seq::<Option<usize>>::empty());
            assert(sizes_of(sizes@) =~= sizes@);
        }
        grid.add_all(sizes);
        proof {
            lemma_pack_tiled(sizes@, w);
        }
        let visitor = grid.into_iter(Ghost(sizes@), Ghost(pack_origins(sizes@, w)));
        let placements = visitor.collect_regions();
        proof {
            assert(placements@ == layout(sizes@, w));
            lemma_layout(sizes@, w);
        }
        let mut out: Vec<GridContent<T>> = Vec::new();
        let mut i: usize = 0;
        while i < placements.len()
            invariant
                placements@ == layout(sizes@, w),
                each_once(placements@, photos@.len() as int),
                0 <= i <= placements@.len(),
                out@ == resolve(photos@, placements@).take(i as int),
            decreases placements.len() - i,
        {
            let p = placements[i];
            proof {
                assert(p.data < photos@.len());
            }
            out.push(GridContent::new(photos[p.data], p.size, p.origin));
            proof {
                assert(out@ == resolve(photos@, placements@).take(i as int + 1));
            }
            i += 1;
        }
        proof {
            assert(resolve(photos@, placements@).take(placements@.len() as int) == resolve(photos@, placements@));
        }
        PhotoGrid { grid: out, width }
    }

    /// Sizes each item with `cb` and packs them first-fit into `width`
    /// columns (see [`PhotoGrid::new_with_sizes`]).
    pub fn new_with_mapper<U: Size, C: Fn(&T) -> U>(photos: &[T], width: usize, cb: C) -> (r: Self)
        requires
            width > 0,
            photos@.len() < usize::MAX,
            forall|i: int| 0 <= i < photos@.len() ==> cb.requires((&photos@[i],)),
            forall|i: int, u: U|
                0 <= i < photos@.len() && #[trigger] cb.ensures((&photos@[i],), u) ==> sized_within(u, width as int, photos@.len() as int),
        ensures
            r.width == width,
            exists|us: Seq<U>|
                {
                    &&& us.len() == photos@.len()
                    &&& forall|i: int| 0 <= i < us.len() ==> cb.ensures((&photos@[i],), #[trigger] us[i])
                    &&& r.grid@ == resolve(photos@, layout(sizes_of(us), width as int))
                },
    {
        let ghost mut us: Seq<U> = Seq::empty();
        let mut sizes: Vec<Dimension> = Vec::new();
        let mut i: usize = 0;
        while i < photos.len()
            invariant
                0 <= i <= photos@.len(),
                forall|i: int| 0 <= i < photos@.len() ==> cb.requires((&photos@[i],)),
                forall|i: int, u: U|
                0 <= i < photos@.len() && #[trigger] cb.ensures((&photos@[i],), u) ==> sized_within(u, width as int, photos@.len() as int),
                us.len() == i,
                forall|k: int| 0 <= k < i ==> cb.ensures((&photos@[k],), #[trigger] us[k]),
                forall|k: int| 0 <= k < i ==> sized_within(#[trigger] us[k], width as int, photos@.len() as int),
                sizes@ == sizes_of(us),
            decreases photos.len() - i,
        {
            let u = cb(&photos[i]);
            proof {
                assert(cb.ensures((&photos@[i as int],), u));
            }
            sizes.push(Dimension { width: u.width(), height: u.height() });
            proof {
                us = us.push(u);
                assert(sizes@ =~= sizes_of(us));
            }
            i += 1;
        }
        proof {
            lemma_sized_within_packable(us, width as int, photos@.len() as int);
        }
        Self::new_with_sizes(photos, width, &sizes)
    }
}

/// An item size that fits `w` columns, and whose height, over `n` items,
/// keeps the grid within the machine's index range.
pub open spec fn sized_within<U: Size>(u: U, w: int, n: int) -> bool {
    &&& 1 <= u.size_width() <= w
    &&& 1 <= u.size_height()
    &&& u.size_height() * n * w <= usize::MAX
}

/// Up to `n` sizes each within bounds can be packed.
pub proof fn lemma_sized_within_packable<U: Size>(us: Seq<U>, w: int, n: int)
    requires
        0 < w <= usize::MAX,
        us.len() <= n,
        n < usize::MAX,
        forall|k: int| 0 <= k < us.len() ==> sized_within(#[trigger] us[k], w, n),
    ensures
        packable(sizes_of(us), w),
    decreases us.len(),
{
    let sizes = sizes_of(us);
    assert forall|k: int| 0 <= k < sizes.len() implies {
        &&& (#[trigger] sizes[k]).height == us[k].size_height()
        &&& sizes[k].width == us[k].size_width()
        &&& sizes[k].height * n * w <= usize::MAX
    } by {
        let h = us[k].size_height() as int;
        assert(sized_within(us[k], w, n));
        assert(h <= h * n * w) by (nonlinear_arith)
            requires
                h >= 1,
                n >= 1,
                w >= 1,
        ;
    }
    if us.len() > 0 {
        let b = usize::MAX as int / n;
        lemma_sum_bound(sizes, w, n);
        assert(n * b <= usize::MAX) by {
            vstd::arithmetic::div_mod::lemma_fundamental_div_mod(usize::MAX as int, n);
        }
        assert(sizes.len() * b <= n * b) by (nonlinear_arith)
            requires
                sizes.len() <= n,
                b >= 0,
        ;
        assert(sum_heights(sizes) * w <= usize::MAX);
    } else {
        assert(sum_heights(sizes) == 0);
        assert(sum_heights(sizes) * w == 0) by (nonlinear_arith)
            requires
                sum_heights(sizes) == 0,
        ;
    }
    assert(sizes_fit_width(sizes, w));
    assert(sizes.len() < usize::MAX);
}

/// Each height times `w` is at most `usize::MAX / n`, so the sum of `len` of them is at most `len` times that.
proof fn lemma_sum_bound(sizes: Seq<Dimension>, w: int, n: int)
    requires
        w > 0,
        n > 0,
        forall|k: int| 0 <= k < sizes.len() ==> (#[trigger] sizes[k]).height * n * w <= usize::MAX,
    ensures
        sum_heights(sizes) * w <= sizes.len() * (usize::MAX as int / n),
    decreases sizes.len(),
{
    if sizes.len() > 0 {
        let front = sizes.drop_last();
        assert forall|k: int| 0 <= k < front.len() implies (#[trigger] front[k]).height * n * w <= usize::MAX by {
            assert(front[k] == sizes[k]);
        }
        lemma_sum_bound(front, w, n);
        let h = sizes.last().height as int;
        assert(h == sizes[sizes.len() - 1].height);
        let b = usize::MAX as int / n;
        assert(h * n * w <= usize::MAX);
        assert(h * w <= b) by {
            let hw = h * w;
            assert(hw * n <= usize::MAX) by (nonlinear_arith)
                requires
                    h * n * w <= usize::MAX,
                    hw == h * w,
            ;
            vstd::arithmetic::div_mod::lemma_div_is_ordered(hw * n, usize::MAX as int, n);
            vstd::arithmetic::div_mod::lemma_div_multiples_vanish(hw, n);
        }
        assert(sum_heights(sizes) * w == sum_heights(front) * w + h * w) by (nonlinear_arith)
            requires
                sum_heights(sizes) == sum_heights(front) + h,
        ;
        assert(front.len() * b + b == sizes.len() * b) by (nonlinear_arith)
            requires
                front.len() + 1 == sizes.len(),
        ;
        assert(sum_heights(front) * w <= front.len() * b);
        assert(sum_heights(sizes) * w <= sizes.len() * b);
    } else {
        assert(sum_heights(sizes) == 0);
        assert(sum_heights(sizes) * w == 0) by (nonlinear_arith)
            requires
                sum_heights(sizes) == 0,
        ;
    }
}

/// No other placement to the right of `ps[i]` shares a row with it.
pub open spec fn clear_to_the_right<T>(ps: Seq<GridContent<T>>, i: int) -> bool {
    forall|j: int|
        0 <= j < ps.len() && j != i && (#[trigger] ps[j]).origin.x > ps[i].origin.x ==> !rows_meet(
            ps[j],
            ps[i],
        )
}

/// Whether two placements share a row.
pub open spec fn rows_meet<T, U>(a: GridContent<T>, b: GridContent<U>) -> bool {
    a.origin.y < b.origin.y + b.size.height && b.origin.y < a.origin.y + a.size.height
}

/// The placements after each one with nothing to its right in its rows is
/// widened to reach the right edge of `w` columns.
pub open spec fn grown<T>(ps: Seq<GridContent<T>>, w: int) -> Seq<GridContent<T>> {
    Seq::new(
        ps.len(),
        |i: int|
            if clear_to_the_right(ps, i) {
                GridContent {
                    data: ps[i].data,
                    size: Dimension { width: (w - ps[i].origin.x) as usize, height: ps[i].size.height },
                    origin: ps[i].origin,
                }
            } else {
                ps[i]
            },
    )
}

/// Widening to the right edge only widens, keeps every placement within the
/// width, and makes no two placements share a cell that did not before.
pub proof fn lemma_grow_keeps_disjoint<T>(ps: Seq<GridContent<T>>, w: int)
    requires
        within_width(ps, w),
        w <= usize::MAX,
        forall|i: int| 0 <= i < ps.len() ==> (#[trigger] ps[i]).size.width >= 1,
        pairwise_disjoint(ps),
    ensures
        grown(ps, w).len() == ps.len(),
        forall|i: int|
            0 <= i < ps.len() ==> {
                &&& (#[trigger] grown(ps, w)[i]).size.width >= ps[i].size.width
                &&& grown(ps, w)[i].size.height == ps[i].size.height
                &&& grown(ps, w)[i].origin == ps[i].origin
                &&& grown(ps, w)[i].data == ps[i].data
            },
        within_width(grown(ps, w), w),
        pairwise_disjoint(grown(ps, w)),
{
    let g = grown(ps, w);
    assert forall|i: int, j: int|
        0 <= i < g.len() && 0 <= j < g.len() && i != j implies !overlap(#[trigger] g[i], #[trigger] g[j]) by {
        assert(!overlap(ps[i], ps[j]));
        assert(ps[i].size.width >= 1 && ps[j].size.width >= 1);
        if rows_meet(ps[i], ps[j]) {
            if ps[i].origin.x < ps[j].origin.x {
                assert(!clear_to_the_right(ps, i));
            } else if ps[j].origin.x < ps[i].origin.x {
                assert(!clear_to_the_right(ps, j));
            }
        }
    }
}

impl<T: Copy> PhotoGrid<T> {
    /// Widens each placement that has nothing to its right in its rows so
    /// that it reaches the right edge.
    pub fn grow_non_intersecting(self) -> (r: Self)
        requires
            within_width(self.grid@, self.width as int),
            forall|i: int|
                0 <= i < self.grid@.len() ==> (#[trigger] self.grid@[i]).origin.y
                    + self.grid@[i].size.height <= usize::MAX,
        ensures
            r.width == self.width,
            r.grid@ == grown(self.grid@, self.width as int),
    {
        self.grown()
    }

    fn grown(&self) -> (r: Self)
        requires
            within_width(self.grid@, self.width as int),
            forall|i: int|
                0 <= i < self.grid@.len() ==> (#[trigger] self.grid@[i]).origin.y
                    + self.grid@[i].size.height <= usize::MAX,
        ensures
            r.width == self.width,
            r.grid@ == grown(self.grid@, self.width as int),
    {
        let ps = &self.grid;
        let n = ps.len();
        let mut out: Vec<GridContent<T>> = Vec::new();
        let mut i: usize = 0;
        while i < n
            invariant
                n == ps@.len(),
                ps@ == self.grid@,
                within_width(ps@, self.width as int),
                forall|i: int|
                    0 <= i < ps@.len() ==> (#[trigger] ps@[i]).origin.y + ps@[i].size.height
                        <= usize::MAX,
                0 <= i <= n,
                out@ == grown(ps@, self.width as int).take(i as int),
            decreases n - i,
        {
            let rows = ps[i].height_range();
            let mut clear = true;
            let mut j: usize = 0;
            while j < n
                invariant
                    n == ps@.len(),
                    0 <= i < n,
                    forall|i: int|
                        0 <= i < ps@.len() ==> (#[trigger] ps@[i]).origin.y + ps@[i].size.height
                            <= usize::MAX,
                    rows.start == ps@[i as int].origin.y,
                    rows.end == ps@[i as int].origin.y + ps@[i as int].size.height,
                    0 <= j <= n,
                    clear == forall|k: int|
                        0 <= k < j && k != i && (#[trigger] ps@[k]).origin.x > ps@[i as int].origin.x
                            ==> !rows_meet(ps@[k], ps@[i as int]),
                decreases n - j,
            {
                if j != i && ps[j].origin.x > ps[i].origin.x && ps[j].height_range().does_intersect(&rows) {
                    clear = false;
                }
                j += 1;
            }
            let p = ps[i];
            if clear {
                out.push(GridContent::new(p.data, Dimension { width: self.width - p.origin.x, height: p.size.height }, p.origin));
            } else {
                out.push(p);
            }
            proof {
                assert(out@ == grown(ps@, self.width as int).take(i as int + 1));
            }
            i += 1;
        }
        proof {
            assert(grown(ps@, self.width as int).take(n as int) == grown(ps@, self.width as int));
        }
        PhotoGrid { grid: out, width: self.width }
    }
}

/// Placements whose payloads are the ordinals they stand for resolve to themselves.
pub proof fn lemma_resolve_ordinals(ids: Seq<usize>, ps: Seq<GridContent<usize>>)
    requires
        forall|i: int| 0 <= i < ids.len() ==> #[trigger] ids[i] == i,
        forall|i: int| 0 <= i < ps.len() ==> (#[trigger] ps[i]).data < ids.len(),
    ensures
        resolve(ids, ps) == ps,
{
    assert(resolve(ids, ps) =~= ps);
}

/// Two grids built from the same items, width and sizes are the same.
pub proof fn lemma_layout_deterministic<T>(
    photos: Seq<T>,
    sizes: Seq<Dimension>,
    w: int,
    a: PhotoGrid<T>,
    b: PhotoGrid<T>,
)
    requires
        a.width == w && a.grid@ == resolve(photos, layout(sizes, w)),
        b.width == w && b.grid@ == resolve(photos, layout(sizes, w)),
    ensures
        a.width == b.width,
        a.grid@ == b.grid@,
{
}

/// `p` is one of the placements of `g`.
pub open spec fn placed_in(g: PhotoGrid<usize>, p: GridContent<usize>) -> bool {
    exists|i: int| 0 <= i < g.grid@.len() && #[trigger] g.grid@[i] == p
}

/// A breakpoint places each of the `n` items exactly once, in spans of at
/// least one cell each way, within its width, with no two placements
/// sharing a cell, and with rows that stay within the index range.
pub open spec fn grid_valid(g: PhotoGrid<usize>, n: int) -> bool {
    &&& each_once(g.grid@, n)
    &&& within_width(g.grid@, g.width as int)
    &&& pairwise_disjoint(g.grid@)
    &&& forall|i: int|
        0 <= i < g.grid@.len() ==> {
            &&& (#[trigger] g.grid@[i]).data < n
            &&& g.grid@[i].origin.y + g.grid@[i].size.height <= usize::MAX
            &&& g.grid@[i].size.width >= 1
            &&& g.grid@[i].size.height >= 1
        }
}

/// One layout per breakpoint over the same items; the breakpoints refer to
/// the items by ordinal.
#[derive(Clone)]
pub struct ResponsivePhotoGrid<T> {
    grids: Vec<PhotoGrid<usize>>,
    data: Vec<T>,
}

impl<T> ResponsivePhotoGrid<T> {
    pub closed spec fn breakpoints(&self) -> Seq<PhotoGrid<usize>> {
        self.grids@
    }

    pub closed spec fn items(&self) -> Seq<T> {
        self.data@
    }

    pub open spec fn wf(&self) -> bool {
        forall|b: int|
            0 <= b < self.breakpoints().len() ==> grid_valid(
                #[trigger] self.breakpoints()[b],
                self.items().len() as int,
            )
    }

    /// Sizes every item for each breakpoint with `cb`, which is handed the
    /// item and the breakpoint's position and column count, and packs the
    /// items into that breakpoint's columns.
    pub fn new<U: Size, C: Fn(&T, (usize, usize)) -> U>(photos: Vec<T>, sizes: &[usize], cb: C) -> (r: Self)
        requires
            photos@.len() < usize::MAX,
            forall|b: int| 0 <= b < sizes@.len() ==> #[trigger] sizes@[b] > 0,
            forall|i: int, b: int|
                0 <= i < photos@.len() && 0 <= b < sizes@.len() ==> #[trigger] cb.requires((&photos@[i], (b as usize, sizes@[b]))),
            forall|i: int, b: int, u: U|
                0 <= i < photos@.len() && 0 <= b < sizes@.len() && #[trigger] cb.ensures(
                    (&photos@[i], (b as usize, sizes@[b])),
                    u,
                ) ==> sized_within(u, sizes@[b] as int, photos@.len() as int),
        ensures
            r.wf(),
            r.items() == photos@,
            r.breakpoints().len() == sizes@.len(),
            forall|b: int|
                0 <= b < sizes@.len() ==> {
                    &&& each_once((#[trigger] r.breakpoints()[b]).grid@, photos@.len() as int)
                    &&& pairwise_disjoint(r.breakpoints()[b].grid@)
                },
            forall|b: int|
                0 <= b < sizes@.len() ==> {
                    &&& (#[trigger] r.breakpoints()[b]).width == sizes@[b]
                    &&& exists|us: Seq<U>|
                        {
                            &&& us.len() == photos@.len()
                            &&& forall|i: int|
                                0 <= i < us.len() ==> cb.ensures(
                                    (&photos@[i], (b as usize, sizes@[b])),
                                    #[trigger] us[i],
                                )
                            &&& r.breakpoints()[b].grid@ == layout(sizes_of(us), sizes@[b] as int)
                        }
                },
    {
        let n = photos.len();
        let mut ids: Vec<usize> = Vec::new();
        while ids.len() < n
            invariant
                ids@.len() <= n,
                forall|i: int| 0 <= i < ids@.len() ==> #[trigger] ids@[i] == i,
            decreases n - ids.len(),
        {
            ids.push(ids.len());
        }
        let mut grids: Vec<PhotoGrid<usize>> = Vec::new();
        let mut b: usize = 0;
        while b < sizes.len()
            invariant
                n == photos@.len(),
                n < usize::MAX,
                ids@.len() == n,
                forall|i: int| 0 <= i < ids@.len() ==> #[trigger] ids@[i] == i,
                forall|b: int| 0 <= b < sizes@.len() ==> #[trigger] sizes@[b] > 0,
                forall|i: int, b: int|
                    0 <= i < photos@.len() && 0 <= b < sizes@.len() ==> #[trigger] cb.requires((&photos@[i], (b as usize, sizes@[b]))),
                forall|i: int, b: int, u: U|
                    0 <= i < photos@.len() && 0 <= b < sizes@.len() && #[trigger] cb.ensures(
                        (&photos@[i], (b as usize, sizes@[b])),
                        u,
                    ) ==> sized_within(u, sizes@[b] as int, photos@.len() as int),
                0 <= b <= sizes@.len(),
                grids@.len() == b,
                forall|c: int| 0 <= c < b ==> grid_valid(#[trigger] grids@[c], n as int),
                forall|c: int|
                    0 <= c < b ==> {
                        &&& each_once((#[trigger] grids@[c]).grid@, n as int)
                        &&& pairwise_disjoint(grids@[c].grid@)
                    },
                forall|c: int|
                    0 <= c < b ==> {
                        &&& (#[trigger] grids@[c]).width == sizes@[c]
                        &&& exists|us: Seq<U>|
                            {
                                &&& us.len() == photos@.len()
                                &&& forall|i: int|
                                    0 <= i < us.len() ==> cb.ensures(
                                        (&photos@[i], (c as usize, sizes@[c])),
                                        #[trigger] us[i],
                                    )
                                &&& grids@[c].grid@ == layout(sizes_of(us), sizes@[c] as int)
                            }
                    },
            decreases sizes.len() - b,
        {
            let width = sizes[b];
            let ghost mut us: Seq<U> = Seq::empty();
            let mut dims: Vec<Dimension> = Vec::new();
            let mut i: usize = 0;
            while i < n
                invariant
                    n == photos@.len(),
                    0 <= b < sizes@.len(),
                    width == sizes@[b as int],
                    forall|i: int, b: int|
                        0 <= i < photos@.len() && 0 <= b < sizes@.len() ==> #[trigger] cb.requires((&photos@[i], (b as usize, sizes@[b]))),
                    forall|i: int, b: int, u: U|
                        0 <= i < photos@.len() && 0 <= b < sizes@.len() && #[trigger] cb.ensures(
                            (&photos@[i], (b as usize, sizes@[b])),
                            u,
                        ) ==> sized_within(u, sizes@[b] as int, photos@.len() as int),
                    0 <= i <= n,
                    us.len() == i,
                    forall|k: int| 0 <= k < i ==> cb.ensures((&photos@[k], (b, width)), #[trigger] us[k]),
                    forall|k: int| 0 <= k < i ==> sized_within(#[trigger] us[k], width as int, n as int),
                    dims@ == sizes_of(us),
                decreases n - i,
            {
                proof {
                    let bi = b as int;
                    assert(cb.requires((&photos@[i as int], (bi as usize, sizes@[bi]))));
                }
                let u = cb(&photos[i], (b, width));
                proof {
                    let bi = b as int;
                    assert(cb.ensures((&photos@[i as int], (bi as usize, sizes@[bi])), u));
                }
                dims.push(Dimension { width: u.width(), height: u.height() });
                proof {
                    us = us.push(u);
                    assert(dims@ =~= sizes_of(us));
                }
                i += 1;
            }
            proof {
                lemma_sized_within_packable(us, width as int, n as int);
                lemma_layout(dims@, width as int);
            }
            let g = PhotoGrid::new_with_sizes(ids.as_slice(), width, dims.as_slice());
            proof {
                lemma_resolve_ordinals(ids@, layout(dims@, width as int));
                assert(g.grid@ == layout(sizes_of(us), width as int));
                assert forall|i: int| 0 <= i < g.grid@.len() implies {
                    &&& (#[trigger] g.grid@[i]).data < n
                    &&& g.grid@[i].origin.y + g.grid@[i].size.height <= usize::MAX
                } by {
                    assert(g.grid@[i] == layout(dims@, width as int)[i]);
                }
            }
            grids.push(g);
            proof {
                let bi = b as int;
                assert(grids@[bi] == g);
                assert forall|i: int| 0 <= i < us.len() implies cb.ensures(
                    (&photos@[i], (bi as usize, sizes@[bi])),
                    #[trigger] us[i],
                ) by {}
                assert(grids@[bi].grid@ == layout(sizes_of(us), sizes@[bi] as int));
                assert(exists|us2: Seq<U>|
                    {
                        &&& us2.len() == photos@.len()
                        &&& forall|i: int|
                            0 <= i < us2.len() ==> cb.ensures(
                                (&photos@[i], (bi as usize, sizes@[bi])),
                                #[trigger] us2[i],
                            )
                        &&& grids@[bi].grid@ == layout(sizes_of(us2), sizes@[bi] as int)
                    });
                assert forall|c: int| 0 <= c < b + 1 implies grid_valid(#[trigger] grids@[c], n as int) by {}
            }
            b += 1;
        }
        ResponsivePhotoGrid { grids, data: photos }
    }

    /// The breakpoints with each ordinal resolved to its item.
    pub fn grids(&self) -> (r: Vec<PhotoGrid<&T>>)
        requires
            self.wf(),
        ensures
            r@.len() == self.breakpoints().len(),
            forall|b: int|
                0 <= b < r@.len() ==> {
                    let g = self.breakpoints()[b];
                    &&& (#[trigger] r@[b]).width == g.width
                    &&& r@[b].grid@.len() == g.grid@.len()
                    &&& forall|i: int|
                        0 <= i < g.grid@.len() ==> {
                            &&& *(#[trigger] r@[b].grid@[i]).data == self.items()[g.grid@[i].data as int]
                            &&& r@[b].grid@[i].size == g.grid@[i].size
                            &&& r@[b].grid@[i].origin == g.grid@[i].origin
                        }
                },
    {
        let mut out: Vec<PhotoGrid<&T>> = Vec::new();
        let mut b: usize = 0;
        while b < self.grids.len()
            invariant
                self.wf(),
                0 <= b <= self.grids@.len(),
                out@.len() == b,
                forall|c: int|
                    0 <= c < b ==> {
                        let g = self.breakpoints()[c];
                        &&& (#[trigger] out@[c]).width == g.width
                        &&& out@[c].grid@.len() == g.grid@.len()
                        &&& forall|i: int|
                            0 <= i < g.grid@.len() ==> {
                                &&& *(#[trigger] out@[c].grid@[i]).data == self.items()[g.grid@[i].data as int]
                                &&& out@[c].grid@[i].size == g.grid@[i].size
                                &&& out@[c].grid@[i].origin == g.grid@[i].origin
                            }
                    },
            decreases self.grids.len() - b,
        {
            let g = &self.grids[b];
            proof {
                assert(grid_valid(self.breakpoints()[b as int], self.items().len() as int));
            }
            let mut placed: Vec<GridContent<&T>> = Vec::new();
            let mut i: usize = 0;
            while i < g.grid.len()
                invariant
                    *g == self.breakpoints()[b as int],
                    grid_valid(*g, self.items().len() as int),
                    0 <= i <= g.grid@.len(),
                    placed@.len() == i,
                    forall|j: int|
                        0 <= j < i ==> {
                            &&& *(#[trigger] placed@[j]).data == self.items()[g.grid@[j].data as int]
                            &&& placed@[j].size == g.grid@[j].size
                            &&& placed@[j].origin == g.grid@[j].origin
                        },
                decreases g.grid.len() - i,
            {
                let p = &g.grid[i];
                placed.push(GridContent::new(&self.data[p.data], p.size, p.origin));
                i += 1;
            }
            out.push(PhotoGrid { grid: placed, width: g.width });
            b += 1;
        }
        out
    }

    /// For item `n`, the item and its placement in every breakpoint, in
    /// breakpoint order; nothing when there is no item `n`.
    pub fn contents_at(&self, n: usize) -> (r: Vec<(&T, &GridContent<usize>)>)
        requires
            self.wf(),
        ensures
            r@.len() == if n < self.items().len() {
                self.breakpoints().len()
            } else {
                0
            },
            forall|b: int|
                0 <= b < r@.len() ==> {
                    &&& *(#[trigger] r@[b]).0 == self.items()[n as int]
                    &&& r@[b].1.data == n
                    &&& placed_in(self.breakpoints()[b], *r@[b].1)
                },
    {
        let mut out: Vec<(&T, &GridContent<usize>)> = Vec::new();
        let mut b: usize = 0;
        while b < self.grids.len()
            invariant
                self.wf(),
                0 <= b <= self.grids@.len(),
                out@.len() == if n < self.items().len() {
                    b as int
                } else {
                    0
                },
                forall|c: int|
                    0 <= c < out@.len() ==> {
                        &&& *(#[trigger] out@[c]).0 == self.items()[n as int]
                        &&& out@[c].1.data == n
                        &&& placed_in(self.breakpoints()[c], *out@[c].1)
                    },
            decreases self.grids.len() - b,
        {
            let g = &self.grids[b];
            proof {
                assert(grid_valid(self.breakpoints()[b as int], self.items().len() as int));
            }
            match position_of(g, n) {
                Some(i) => {
                    let p = &g.grid[i];
                    proof {
                        assert(p.data < self.items().len());
                        assert(placed_in(self.breakpoints()[b as int], *p));
                    }
                    out.push((&self.data[n], p));
                },
                None => {
                    proof {
                        if n < self.items().len() {
                            assert(has_payload(g.grid@, n as int));
                        }
                    }
                },
            }
            b += 1;
        }
        out
    }

    /// The number of placements of the first breakpoint; zero without breakpoints.
    pub fn contents_len(&self) -> (r: usize)
        ensures
            r == if self.breakpoints().len() > 0 {
                self.breakpoints()[0].grid@.len()
            } else {
                0
            },
    {
        if self.grids.len() > 0 {
            self.grids[0].grid.len()
        } else {
            0
        }
    }

    /// Widens, in every breakpoint, each placement that has nothing to its
    /// right in its rows so that it reaches the right edge.
    pub fn grow_to_width(self) -> (r: Self)
        requires
            self.wf(),
        ensures
            r.wf(),
            r.items() == self.items(),
            r.breakpoints().len() == self.breakpoints().len(),
            forall|b: int|
                0 <= b < r.breakpoints().len() ==> {
                    &&& (#[trigger] r.breakpoints()[b]).width == self.breakpoints()[b].width
                    &&& r.breakpoints()[b].grid@ == grown(
                        self.breakpoints()[b].grid@,
                        self.breakpoints()[b].width as int,
                    )
                    &&& forall|i: int|
                        0 <= i < r.breakpoints()[b].grid@.len() ==> (#[trigger] r.breakpoints()[b].grid@[i]).size.width
                            >= self.breakpoints()[b].grid@[i].size.width
                },
    {
        let mut grids: Vec<PhotoGrid<usize>> = Vec::new();
        let mut b: usize = 0;
        while b < self.grids.len()
            invariant
                self.wf(),
                0 <= b <= self.grids@.len(),
                grids@.len() == b,
                forall|c: int|
                    0 <= c < b ==> {
                        &&& (#[trigger] grids@[c]).width == self.breakpoints()[c].width
                        &&& grids@[c].grid@ == grown(
                            self.breakpoints()[c].grid@,
                            self.breakpoints()[c].width as int,
                        )
                        &&& grid_valid(grids@[c], self.items().len() as int)
                    },
            decreases self.grids.len() - b,
        {
            let g = &self.grids[b];
            proof {
                assert(grid_valid(self.breakpoints()[b as int], self.items().len() as int));
            }
            let wider = g.grown();
            proof {
                let ps = g.grid@;
                let w = g.width as int;
                let gs = grown(ps, w);
                let n = self.items().len() as int;
                assert forall|i: int| 0 <= i < ps.len() implies (#[trigger] gs[i]).origin.x
                    + gs[i].size.width <= w by {
                    assert(ps[i].origin.x + ps[i].size.width <= w);
                }
                assert forall|k: int| 0 <= k < n implies #[trigger] has_payload(gs, k) by {
                    assert(has_payload(ps, k));
                    let i = choose|i: int| 0 <= i < ps.len() && (#[trigger] ps[i]).data == k;
                    assert(gs[i].data == k);
                }
                assert forall|i: int, j: int|
                    0 <= i < gs.len() && 0 <= j < gs.len() && i != j implies (#[trigger] gs[i]).data
                    != (#[trigger] gs[j]).data by {
                    assert(ps[i].data != ps[j].data);
                }
                lemma_grow_keeps_disjoint(ps, w);
                assert(grid_valid(wider, n));
            }
            grids.push(wider);
            b += 1;
        }
        proof {
            assert forall|c: int| 0 <= c < grids@.len() implies forall|i: int|
                0 <= i < (#[trigger] grids@[c]).grid@.len() ==> (#[trigger] grids@[c].grid@[i]).size.width
                    >= self.breakpoints()[c].grid@[i].size.width by {
                let g = self.breakpoints()[c];
                assert(grid_valid(g, self.items().len() as int));
                lemma_grow_keeps_disjoint(g.grid@, g.width as int);
            }
        }
        ResponsivePhotoGrid { grids, data: self.data }
    }
}

impl<T> ResponsivePhotoGrid<T> {
    pub(crate) fn from_verified_parts(grids: Vec<PhotoGrid<usize>>, data: Vec<T>) -> (r: Self)
        requires
            parts_valid(grids@, data@.len() as int),
        ensures
            r.breakpoints() == grids@,
            r.items() == data@,
            r.wf(),
    {
        ResponsivePhotoGrid { grids, data }
    }

    /// The breakpoints and the items: the two fields of the serialized form.
    pub fn into_parts(self) -> (r: (Vec<PhotoGrid<usize>>, Vec<T>))
        ensures
            r.0@ == self.breakpoints(),
            r.1@ == self.items(),
    {
        (self.grids, self.data)
    }

    /// Rebuilds a layout from its breakpoints and items; `None` when a
    /// breakpoint does not place every item exactly once, or a placement
    /// crosses its grid's right edge or ends past the last row index.
    pub fn from_parts(grids: Vec<PhotoGrid<usize>>, data: Vec<T>) -> (r: Option<Self>)
        ensures
            r is Some <==> parts_valid(grids@, data@.len() as int),
            r matches Some(g) ==> g.breakpoints() == grids@ && g.items() == data@ && g.wf(),
    {
        let n = data.len();
        let mut b: usize = 0;
        while b < grids.len()
            invariant
                n == data@.len(),
                0 <= b <= grids@.len(),
                forall|c: int| 0 <= c < b ==> grid_valid(#[trigger] grids@[c], n as int),
            decreases grids.len() - b,
        {
            let g = &grids[b];
            let mut i: usize = 0;
            while i < g.grid.len()
                invariant
                    n == data@.len(),
                    0 <= b < grids@.len(),
                    *g == grids@[b as int],
                    0 <= i <= g.grid@.len(),
                    forall|j: int|
                        0 <= j < i ==> {
                            &&& (#[trigger] g.grid@[j]).data < n
                            &&& g.grid@[j].origin.y + g.grid@[j].size.height <= usize::MAX
                            &&& g.grid@[j].origin.x + g.grid@[j].size.width <= g.width
                            &&& g.grid@[j].size.width >= 1
                            &&& g.grid@[j].size.height >= 1
                        },
                decreases g.grid.len() - i,
            {
                let p = &g.grid[i];
                if p.data >= n || p.size.height > usize::MAX - p.origin.y || p.size.width > g.width
                    || p.origin.x > g.width - p.size.width || p.size.width == 0
                    || p.size.height == 0 {
                    proof {
                        let gb = grids@[b as int];
                        assert(gb.grid@[i as int] == *p);
                        assert(!grid_valid(gb, n as int));
                    }
                    return None;
                }
                i += 1;
            }
            if !check_disjoint(&g.grid, g.width) {
                proof {
                    assert(!grid_valid(grids@[b as int], n as int));
                }
                return None;
            }
            if !check_each_once(&g.grid, n) {
                proof {
                    assert(!grid_valid(grids@[b as int], n as int));
                }
                return None;
            }
            b += 1;
        }
        Some(ResponsivePhotoGrid { grids, data })
    }
}

/// The first position of a placement that carries `n`.
fn position_of(g: &PhotoGrid<usize>, n: usize) -> (r: Option<usize>)
    ensures
        match r {
            Some(i) => i < g.grid@.len() && g.grid@[i as int].data == n,
            None => forall|j: int| 0 <= j < g.grid@.len() ==> (#[trigger] g.grid@[j]).data != n,
        },
{
    let mut i: usize = 0;
    while i < g.grid.len()
        invariant
            0 <= i <= g.grid@.len(),
            forall|j: int| 0 <= j < i ==> (#[trigger] g.grid@[j]).data != n,
        decreases g.grid.len() - i,
    {
        if g.grid[i].data == n {
            return Some(i);
        }
        i += 1;
    }
    None
}

/// Whether no two placements share a cell.
fn check_disjoint(ps: &Vec<GridContent<usize>>, width: usize) -> (r: bool)
    requires
        within_width(ps@, width as int),
        forall|i: int|
            0 <= i < ps@.len() ==> (#[trigger] ps@[i]).origin.y + ps@[i].size.height <= usize::MAX,
    ensures
        r == pairwise_disjoint(ps@),
{
    let mut i: usize = 0;
    while i < ps.len()
        invariant
            within_width(ps@, width as int),
            forall|k: int|
                0 <= k < ps@.len() ==> (#[trigger] ps@[k]).origin.y + ps@[k].size.height <= usize::MAX,
            0 <= i <= ps@.len(),
            forall|a: int, b: int|
                0 <= a < i && 0 <= b < ps@.len() && a != b ==> !overlap(#[trigger] ps@[a], #[trigger] ps@[b]),
        decreases ps.len() - i,
    {
        let mut j: usize = 0;
        while j < ps.len()
            invariant
                within_width(ps@, width as int),
                forall|k: int|
                    0 <= k < ps@.len() ==> (#[trigger] ps@[k]).origin.y + ps@[k].size.height <= usize::MAX,
                0 <= i < ps@.len(),
                0 <= j <= ps@.len(),
                forall|a: int, b: int|
                    0 <= a < i && 0 <= b < ps@.len() && a != b ==> !overlap(#[trigger] ps@[a], #[trigger] ps@[b]),
                forall|b: int| 0 <= b < j && b != i ==> !overlap(ps@[i as int], #[trigger] ps@[b]),
            decreases ps.len() - j,
        {
            let a = &ps[i];
            let b = &ps[j];
            proof {
                assert(a.origin.x + a.size.width <= width);
                assert(b.origin.x + b.size.width <= width);
            }
            if i != j && a.origin.x < b.origin.x + b.size.width && b.origin.x < a.origin.x + a.size.width
                && a.origin.y < b.origin.y + b.size.height && b.origin.y < a.origin.y + a.size.height {
                proof {
                    assert(overlap(ps@[i as int], ps@[j as int]));
                }
                return false;
            }
            j += 1;
        }
        i += 1;
    }
    true
}

/// Whether each item below `n` is the payload of exactly one placement.
fn check_each_once(ps: &Vec<GridContent<usize>>, n: usize) -> (r: bool)
    ensures
        r == each_once(ps@, n as int),
{
    let mut seen: Vec<bool> = Vec::new();
    while seen.len() < n
        invariant
            seen@.len() <= n,
            forall|k: int| 0 <= k < seen@.len() ==> !(#[trigger] seen@[k]),
        decreases n - seen.len(),
    {
        seen.push(false);
    }
    let mut i: usize = 0;
    while i < ps.len()
        invariant
            seen@.len() == n,
            0 <= i <= ps@.len(),
            forall|j: int| 0 <= j < i ==> (#[trigger] ps@[j]).data < n && seen@[ps@[j].data as int],
            forall|k: int|
                0 <= k < n && #[trigger] seen@[k] ==> exists|j: int| 0 <= j < i && ps@[j].data == k,
            forall|j1: int, j2: int|
                0 <= j1 < i && 0 <= j2 < i && j1 != j2 ==> (#[trigger] ps@[j1]).data != (
                #[trigger] ps@[j2]).data,
        decreases ps.len() - i,
    {
        let d = ps[i].data;
        if d >= n {
            return false;
        }
        if seen[d] {
            proof {
                let j = choose|j: int| 0 <= j < i && ps@[j].data == d;
                assert(ps@[j].data == ps@[i as int].data);
            }
            return false;
        }
        seen.set(d, true);
        i += 1;
    }
    let mut k: usize = 0;
    while k < n
        invariant
            seen@.len() == n,
            i == ps@.len(),
            0 <= k <= n,
            forall|j: int| 0 <= j < i ==> (#[trigger] ps@[j]).data < n && seen@[ps@[j].data as int],
            forall|k2: int|
                0 <= k2 < n && #[trigger] seen@[k2] ==> exists|j: int| 0 <= j < i && ps@[j].data == k2,
            forall|k2: int| 0 <= k2 < k ==> #[trigger] seen@[k2],
        decreases n - k,
    {
        if !seen[k] {
            proof {
                if has_payload(ps@, k as int) {
                    let j = choose|j: int| 0 <= j < ps@.len() && (#[trigger] ps@[j]).data == k;
                    assert(seen@[ps@[j].data as int]);
                }
            }
            return false;
        }
        k += 1;
    }
    proof {
        assert forall|k2: int| 0 <= k2 < n implies #[trigger] has_payload(ps@, k2) by {
            assert(seen@[k2]);
        }
    }
    true
}

/// Every breakpoint is valid over `n` items.
pub open spec fn parts_valid(grids: Seq<PhotoGrid<usize>>, n: int) -> bool {
    forall|b: int| 0 <= b < grids.len() ==> grid_valid(#[trigger] grids[b], n)
}

/// Splitting a layout into its breakpoints and items and rebuilding it
/// gives back the same breakpoints and items: the parts of a layout always
/// pass the checks of [`ResponsivePhotoGrid::from_parts`].
pub proof fn lemma_parts_round_trip<T>(g: ResponsivePhotoGrid<T>)
    requires
        g.wf(),
    ensures
        parts_valid(g.breakpoints(), g.items().len() as int),
{
}

} // verus!
