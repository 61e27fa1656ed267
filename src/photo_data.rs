use vstd::prelude::*;
use crate::geometry::{AspectRatio, Dimension, Orientation};
use crate::photo_grid::{
    grid_valid, layout, lemma_layout, lemma_resolve_ordinals, lemma_sized_within_packable,
    sized_within, PhotoGrid, ResponsivePhotoGrid,
};
use crate::packing::sizes_of;
use crate::ratio::{
    clamped_height, ratio_orientation, rounded_long_edge, short_long, FromAspectRatio,
    RoundedAspectRatio, Rounding,
};

verus! {

/// One rendition of a photo: its pixel size and where it is served from.
#[derive(Debug, Clone, PartialEq, Eq)]
pub struct SrcSet {
    pub dimensions: Dimension,
    pub url: String,
}

/// A photo as the layout sees it: its renditions and its metadata entries.
/// The entries come from a map, so their keys are distinct (see
/// [`crate::search::keys_distinct`]); a lookup then finds the one entry under
/// a key whatever the order (see [`crate::search::lemma_lookup_entry`]).
#[derive(Debug, Clone, PartialEq, Eq)]
pub struct PhotoLayoutData {
    pub srcs: Vec<SrcSet>,
    pub metadata: Vec<(String, String)>,
}

/// The column counts of the breakpoints, from the smallest screen up.
pub open spec fn breakpoint_widths() -> Seq<usize> {
    seq![3usize, 4, 6, 8, 12]
}

/// Index of the widest rendition; the last of them on a tie.
pub open spec fn widest_index(srcs: Seq<SrcSet>) -> int
    decreases srcs.len(),
{
    if srcs.len() <= 1 {
        0
    } else {
        let i = widest_index(srcs.drop_last());
        if srcs.last().dimensions.width >= srcs[i].dimensions.width {
            srcs.len() - 1
        } else {
            i
        }
    }
}

pub proof fn lemma_widest_index(srcs: Seq<SrcSet>)
    requires
        srcs.len() > 0,
    ensures
        0 <= widest_index(srcs) < srcs.len(),
    decreases srcs.len(),
{
    if srcs.len() > 1 {
        lemma_widest_index(srcs.drop_last());
    }
}

/// The size of the widest rendition.
pub open spec fn widest(p: PhotoLayoutData) -> Dimension {
    p.srcs@[widest_index(p.srcs@)].dimensions
}

/// The ratio of the widest rendition, in pixels.
pub open spec fn photo_ratio(p: PhotoLayoutData) -> AspectRatio {
    AspectRatio { width: widest(p).width, height: widest(p).height }
}

/// The cells a photo takes at a breakpoint of `columns` columns: its ratio
/// rounded to two cells on the short edge, then clamped to the columns.
pub open spec fn cell_size(p: PhotoLayoutData, columns: nat) -> Dimension {
    let r = photo_ratio(p);
    let long = rounded_long_edge(r, 2, Rounding::HalfUp);
    let (w, h) = match ratio_orientation(r) {
        Orientation::Portrait => (2nat, long),
        Orientation::Landscape => (long, 2nat),
    };
    if w <= columns {
        Dimension { width: w as usize, height: h as usize }
    } else {
        Dimension { width: columns as usize, height: clamped_height(h, w, columns) as usize }
    }
}

/// A photo can be laid out among `n`: it has a rendition, the short side of
/// the widest one has at least two pixels, and its long side times `12 n`
/// stays within the machine's index range.
pub open spec fn layout_ready(p: PhotoLayoutData, n: int) -> bool {
    &&& p.srcs@.len() > 0
    &&& short_long(photo_ratio(p)).0 >= 2
    &&& short_long(photo_ratio(p)).1 * 12 * n <= usize::MAX
}

impl PhotoLayoutData {
    /// The size of the widest rendition.
    pub fn widest_src(&self) -> (r: Dimension)
        requires
            self.srcs@.len() > 0,
        ensures
            r == widest(*self),
    {
        let mut best: usize = 0;
        let mut i: usize = 1;
        while i < self.srcs.len()
            invariant
                1 <= i <= self.srcs@.len(),
                best == widest_index(self.srcs@.take(i as int)),
            decreases self.srcs.len() - i,
        {
            proof {
                lemma_widest_index(self.srcs@.take(i as int));
                assert(self.srcs@.take(i as int + 1).drop_last() == self.srcs@.take(i as int));
            }
            if self.srcs[i].dimensions.width >= self.srcs[best].dimensions.width {
                best = i;
            }
            i += 1;
        }
        proof {
            assert(self.srcs@.take(self.srcs@.len() as int) == self.srcs@);
            lemma_widest_index(self.srcs@);
        }
        self.srcs[best].dimensions
    }

    /// The cells the photo takes at a breakpoint of `columns` columns.
    pub fn cell_size(&self, columns: usize) -> (r: Dimension)
        requires
            layout_ready(*self, 1),
        ensures
            r == cell_size(*self, columns as nat),
    {
        let d = self.widest_src();
        let ratio = AspectRatio { width: d.width, height: d.height };
        let rounded = RoundedAspectRatio::<2>::from_aspect_ratio(&ratio);
        rounded.clamp_width_to(columns)
    }
}

/// The cell size of a ready photo fits the columns, is at least one cell
/// each way, and is no taller than the photo's long side in pixels.
pub proof fn lemma_cell_size(p: PhotoLayoutData, columns: nat, n: int)
    requires
        layout_ready(p, n),
        1 <= columns <= 12,
        n >= 1,
    ensures
        sized_within(cell_size(p, columns), columns as int, n),
{
    let r = photo_ratio(p);
    let (min, max) = short_long(r);
    let divisor = min / 2;
    assert(divisor >= 1);
    let long = rounded_long_edge(r, 2, Rounding::HalfUp);
    assert(max / divisor <= max) by (nonlinear_arith)
        requires
            divisor >= 1,
    ;
    assert(max / divisor >= 1) by (nonlinear_arith)
        requires
            divisor >= 1,
            max >= divisor,
            max >= min,
            min >= 2,
            divisor == min / 2,
    ;
    if max % divisor > divisor / 2 {
        assert(max / divisor + 1 <= max) by (nonlinear_arith)
            requires
                divisor >= 2 || max % divisor == 0,
                max >= 2,
                divisor >= 1,
                max % divisor > divisor / 2,
        ;
    }
    assert(1 <= long <= max);
    let (w, h) = match ratio_orientation(r) {
        Orientation::Portrait => (2nat, long),
        Orientation::Landscape => (long, 2nat),
    };
    let c = cell_size(p, columns);
    if w > columns {
        assert(h * columns / w <= h) by (nonlinear_arith)
            requires
                w > columns,
        ;
    }
    assert(c.height <= max);
    assert(c.height * n * columns <= max * 12 * n) by (nonlinear_arith)
        requires
            c.height <= max,
            columns <= 12,
            n >= 1,
    ;
}

impl ResponsivePhotoGrid<PhotoLayoutData> {
    /// Lays the photos out at every breakpoint of [`breakpoint_widths`], each
    /// sized by [`cell_size`]. Every breakpoint, the smallest included,
    /// clamps a photo's width to its own column count, so that no placement
    /// is wider than its grid.
    pub fn from_layout_data(data: Vec<PhotoLayoutData>) -> (r: Self)
        requires
            data@.len() < usize::MAX,
            forall|i: int| 0 <= i < data@.len() ==> layout_ready(#[trigger] data@[i], data@.len() as int),
        ensures
            r.wf(),
            r.items() == data@,
            r.breakpoints().len() == 5,
            forall|b: int|
                0 <= b < 5 ==> {
                    &&& (#[trigger] r.breakpoints()[b]).width == breakpoint_widths()[b]
                    &&& r.breakpoints()[b].grid@ == layout(
                        Seq::new(
                            data@.len(),
                            |i: int| cell_size(data@[i], breakpoint_widths()[b] as nat),
                        ),
                        breakpoint_widths()[b] as int,
                    )
                },
    {
        let n = data.len();
        let widths: [usize; 5] = [3, 4, 6, 8, 12];
        proof {
            assert(widths@ == breakpoint_widths());
        }
        let mut ids: Vec<usize> = Vec::new();
        while ids.len() < n
            invariant
                ids@.len() <= n,
                forall|i: int| 0 <= i < ids@.len() ==> #[trigger] ids@[i] == i,
            decreases n - ids.len(),
        {
            ids.push(ids.len());
        }
        let mut grids: Vec<PhotoGrid<usize>> = Vec::new();
        let mut b: usize = 0;
        while b < 5
            invariant
                n == data@.len(),
                n < usize::MAX,
                widths@ == breakpoint_widths(),
                ids@.len() == n,
                forall|i: int| 0 <= i < ids@.len() ==> #[trigger] ids@[i] == i,
                forall|i: int| 0 <= i < data@.len() ==> layout_ready(#[trigger] data@[i], data@.len() as int),
                0 <= b <= 5,
                grids@.len() == b,
                forall|c: int|
                    0 <= c < b ==> {
                        &&& grid_valid(#[trigger] grids@[c], n as int)
                        &&& grids@[c].width == breakpoint_widths()[c]
                        &&& grids@[c].grid@ == layout(
                            Seq::new(n as nat, |i: int| cell_size(data@[i], breakpoint_widths()[c] as nat)),
                            breakpoint_widths()[c] as int,
                        )
                    },
            decreases 5 - b,
        {
            let width = widths[b];
            let ghost target = Seq::new(n as nat, |i: int| cell_size(data@[i], width as nat));
            let mut dims: Vec<Dimension> = Vec::new();
            let mut i: usize = 0;
            while i < n
                invariant
                    n == data@.len(),
                    1 <= width <= 12,
                    forall|i: int| 0 <= i < data@.len() ==> layout_ready(#[trigger] data@[i], data@.len() as int),
                    target == Seq::new(n as nat, |i: int| cell_size(data@[i], width as nat)),
                    0 <= i <= n,
                    dims@ == target.take(i as int),
                decreases n - i,
            {
                proof {
                    assert(layout_ready(data@[i as int], n as int));
                    assert(short_long(photo_ratio(data@[i as int])).1 * 12 * 1 <= short_long(photo_ratio(data@[i as int])).1 * 12 * n) by (nonlinear_arith)
                        requires
                            n >= 1,
                    ;
                }
                dims.push(data[i].cell_size(width));
                proof {
                    assert(dims@ == target.take(i as int + 1));
                }
                i += 1;
            }
            proof {
                assert(dims@ == target);
                assert(sizes_of(dims@) =~= dims@);
                assert forall|k: int| 0 <= k < dims@.len() implies sized_within(#[trigger] dims@[k], width as int, n as int) by {
                    lemma_cell_size(data@[k], width as nat, n as int);
                }
                lemma_sized_within_packable(dims@, width as int, n as int);
                lemma_layout(dims@, width as int);
            }
            let g = PhotoGrid::new_with_sizes(ids.as_slice(), width, dims.as_slice());
            proof {
                lemma_resolve_ordinals(ids@, layout(dims@, width as int));
                assert forall|k: int| 0 <= k < g.grid@.len() implies {
                    &&& (#[trigger] g.grid@[k]).data < n
                    &&& g.grid@[k].origin.y + g.grid@[k].size.height <= usize::MAX
                } by {
                    assert(g.grid@[k] == layout(dims@, width as int)[k]);
                }
            }
            grids.push(g);
            proof {
                assert(grids@[b as int] == g);
            }
            b += 1;
        }
        ResponsivePhotoGrid::from_verified_parts(grids, data)
    }
}

} // verus!
